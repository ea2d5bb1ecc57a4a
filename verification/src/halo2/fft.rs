//! Out-of-core FFT over the scalar field.
//!
//! The four-step (Bailey) decomposition factors a size `N = n1 * n2` transform into small
//! transforms over the rows and columns of an `n1 x n2` matrix, with a twiddle multiply
//! between. Each small transform touches one row or column, so the working set is
//! `O(sqrt N)`. Out of core the matrix lives in files; the plans of this module say which
//! records to read, what to do with them and where to write them, and the laws say that
//! following the plans leaves exactly the transform of the input on disk.

use halo2curves::bn256::Fr;
use rayon::iter::{IndexedParallelIterator, ParallelIterator};
use rayon::slice::ParallelSliceMut;
use vstd::arithmetic::div_mod::*;
use vstd::arithmetic::mul::*;
use vstd::arithmetic::power::*;
use vstd::arithmetic::power2::*;
use vstd::prelude::*;

use crate::field::{
    canonical, canonical_all, dft, dft_at, fmul, fpow, fr_fft, fr_mul, fr_one, fr_pow, fr_square,
    fr_zero, lemma_field_ranges, lemma_modulus_bounds, modulus, primitive_root, val, vals,
};
use crate::four_step::{
    lemma_four_step, lemma_fpow_add, lemma_fpow_fpow, lemma_mul_congruent,
    lemma_primitive_root_power, matrix_row, twiddled, twiddled_column,
};
use crate::grid::{lemma_cell, lemma_index, lemma_rows_fit};
use crate::powers::{lemma_exponent_fits, lemma_pow2_split, two_to};
use crate::sums::{lemma_sum_congruent, lemma_sum_split, lemma_sum_zero, sum};

verus! {

/// Split `2^log_n` into `2^k1 * 2^(log_n - k1)` with the exponents as balanced as possible.
pub fn factor(log_n: usize) -> (r: (usize, usize))
    requires
        pow2(log_n as nat) <= usize::MAX,
    ensures
        r.0 == pow2((log_n / 2) as nat),
        r.1 == pow2((log_n - log_n / 2) as nat),
        r.0 * r.1 == pow2(log_n as nat),
        0 < r.0 <= r.1,
{
    let k1: usize = log_n / 2;
    proof {
        lemma_pow2_split(k1 as nat, log_n as nat);
        lemma_pow2_split((log_n - k1) as nat, log_n as nat);
        lemma_pow2_split(k1 as nat, (log_n - k1) as nat);
    }
    (two_to(k1), two_to(log_n - k1))
}

/// Entry `j` of row `r` after its transform with root `w` and, where a twiddle base is
/// given, the factor `base^(r * j)`.
pub open spec fn row_entry(row: Seq<int>, w: int, twiddle: Option<int>, r: int, j: int) -> int {
    match twiddle {
        Some(base) => fmul(dft_at(row, w, j), fpow(base, (r * j) as nat)),
        None => dft_at(row, w, j),
    }
}

/// Row `r` after its transform.
pub open spec fn row_result(row: Seq<int>, w: int, twiddle: Option<int>, r: int) -> Seq<int> {
    Seq::new(row.len(), |j: int| row_entry(row, w, twiddle, r, j))
}

/// The integer of an optional element.
pub open spec fn val_opt(x: Option<Fr>) -> Option<int> {
    match x {
        Some(v) => Some(val(v)),
        None => None,
    }
}

/// `a^0` is one, `a^1` is `a`.
proof fn lemma_fpow_small(a: int)
    requires
        0 <= a < modulus(),
    ensures
        fpow(a, 0) == 1,
        fpow(a, 1) == a,
{
    lemma_modulus_bounds();
    reveal(fpow);
    lemma_pow0(a);
    lemma_pow1(a);
    lemma_small_mod(1, modulus() as nat);
    lemma_small_mod(a as nat, modulus() as nat);
}

/// Transform one row in place: its FFT with `sub_omega` and, where `twiddle` is given, the
/// factor `twiddle^((r0 + i) * j)` on entry `j`.
pub fn transform_row(
    row: &mut [Fr],
    sub_omega: Fr,
    log_row_len: u32,
    twiddle: Option<Fr>,
    r0: usize,
    i: usize,
)
    requires
        old(row)@.len() == pow2(log_row_len as nat),
        canonical_all(old(row)@),
        canonical(sub_omega),
        primitive_root(val(sub_omega), old(row)@.len() as int),
        twiddle is Some ==> canonical(twiddle->0),
        r0 + i <= u64::MAX,
        r0 + i <= usize::MAX,
    ensures
        final(row)@.len() == old(row)@.len(),
        canonical_all(final(row)@),
        vals(final(row)@) == row_result(
            vals(old(row)@),
            val(sub_omega),
            val_opt(twiddle),
            r0 + i,
        ),
{
    let ghost x = vals(row@);
    let ghost w = val(sub_omega);
    let ghost r = r0 + i;
    let n = row.len();
    fr_fft(row, sub_omega, log_row_len);
    let ghost t = row@;
    if let Some(base) = twiddle {
        let step = fr_pow(&base, (r0 + i) as u64);
        let mut tw = fr_one();
        proof {
            lemma_fpow_small(val(step));
        }
        for j in 0..n
            invariant
                n == row@.len(),
                n == t.len(),
                n == x.len(),
                vals(t) == dft(x, w),
                canonical_all(row@),
                canonical(tw),
                canonical(step),
                r == r0 + i,
                val(step) == fpow(val(base), r as nat),
                val(tw) == fpow(val(step), j as nat),
                forall|k: int| j <= k < n ==> row@[k] == t[k],
                forall|k: int|
                    0 <= k < j ==> val(#[trigger] row@[k]) == row_entry(
                        x,
                        w,
                        Some(val(base)),
                        r,
                        k,
                    ),
        {
            proof {
                assert(canonical(row@[j as int]));
                assert(vals(t)[j as int] == val(t[j as int]));
                assert(dft(x, w)[j as int] == dft_at(x, w, j as int));
                lemma_fpow_fpow(val(base), r as nat, j as nat);
                lemma_fpow_add(val(step), j as nat, 1);
                lemma_fpow_small(val(step));
            }
            let v = fr_mul(&row[j], &tw);
            row[j] = v;
            tw = fr_mul(&tw, &step);
        }
    }
    assert(vals(row@) =~= row_result(x, w, val_opt(twiddle), r));
}

/// A power of a primitive root is a primitive root of the remaining order.
pub proof fn lemma_power_of_root(w: int, a: int, b: int)
    requires
        a > 0,
        b > 0,
        b == 1 || b % 2 == 0,
        primitive_root(w, a * b),
    ensures
        primitive_root(fpow(w, a as nat), b),
{
    if b > 1 {
        lemma_mul_strictly_positive(a, b);
        lemma_fpow_fpow(w, a as nat, (b / 2) as nat);
        assert(b == 2 * (b / 2));
        assert(a * b == 2 * (a * (b / 2))) by (nonlinear_arith)
            requires
                b == 2 * (b / 2),
        ;
        lemma_mul_increases(a, b);
        assert(a * b > 1);
        assert((a * b) / 2 == a * (b / 2));
    }
}

/// A power of two is one or even.
pub proof fn lemma_pow2_one_or_even(k: nat)
    ensures
        pow2(k) == 1 || pow2(k) % 2 == 0,
        pow2(k) == 1 <==> k == 0,
        k > 0 ==> pow2(k) > 1,
{
    lemma2_to64();
    if k > 0 {
        lemma_pow2_unfold(k);
        lemma_pow2_pos((k - 1) as nat);
    }
}

/// What the four-step arguments share: the roots of the row and column transforms.
pub proof fn lemma_sub_roots(w: int, k1: nat, k2: nat)
    requires
        primitive_root(w, pow2(k1 + k2) as int),
    ensures
        primitive_root(fpow(w, pow2(k1)), pow2(k2) as int),
        primitive_root(fpow(w, pow2(k2)), pow2(k1) as int),
        (pow2(k1) > 1 && pow2(k2) > 1) ==> fpow(w, (pow2(k1) * pow2(k2)) as nat) == 1,
{
    lemma_pow2_adds(k1, k2);
    lemma_pow2_pos(k1);
    lemma_pow2_pos(k2);
    lemma_pow2_one_or_even(k1);
    lemma_pow2_one_or_even(k2);
    lemma_pow2_one_or_even(k1 + k2);
    lemma_power_of_root(w, pow2(k1) as int, pow2(k2) as int);
    lemma_mul_is_commutative(pow2(k1) as int, pow2(k2) as int);
    lemma_power_of_root(w, pow2(k2) as int, pow2(k1) as int);
    if pow2(k1) > 1 && pow2(k2) > 1 {
        lemma_primitive_root_power(w, pow2(k1 + k2) as int);
    }
}

/// In-core four-step forward FFT: exactly the transform of `x` at the powers of `omega`,
/// a primitive `2^log_n`-th root of unity.
///
/// - input `x[k1 + n1 * k2]`, an `n1 x n2` matrix;
/// - a size `n2` transform of each row `k1` (root `omega^n1`);
/// - entry `(k1, j2)` times `omega^(k1 * j2)`;
/// - a size `n1` transform of each column `j2` (root `omega^n2`);
/// - output `y[j2 + n2 * j1]`.
pub fn four_step(x: &[Fr], omega: Fr, log_n: usize) -> (y: Vec<Fr>)
    requires
        x@.len() == pow2(log_n as nat),
        canonical_all(x@),
        canonical(omega),
        primitive_root(val(omega), x@.len() as int),
    ensures
        canonical_all(y@),
        vals(y@) == dft(vals(x@), val(omega)),
{
    let n = x.len();
    let (n1, n2) = factor(log_n);
    let log_n1: usize = log_n / 2;
    let log_n2: usize = log_n - log_n1;
    let ghost w = val(omega);
    let ghost xv = vals(x@);
    proof {
        lemma_exponent_fits(log_n as nat);
        assert(log_n1 + log_n2 == log_n);
        lemma_sub_roots(w, log_n1 as nat, log_n2 as nat);
    }
    let omega_row = fr_pow(&omega, n1 as u64);
    let omega_col = fr_pow(&omega, n2 as u64);

    // Row transforms and twiddle.
    let mut a: Vec<Fr> = Vec::new();
    assert(0 * n2 == 0) by {
        lemma_mul_basics(n2 as int);
    }
    for k1 in 0..n1
        invariant
            n == x@.len(),
            n == n1 * n2,
            n2 > 0,
            n2 == pow2(log_n2 as nat),
            log_n2 < usize::BITS,
            canonical_all(x@),
            canonical(omega),
            canonical(omega_row),
            xv == vals(x@),
            w == val(omega),
            val(omega_row) == fpow(w, n1 as nat),
            primitive_root(val(omega_row), n2 as int),
            a@.len() == k1 * n2,
            canonical_all(a@),
            forall|i: int, j: int|
                0 <= i < k1 && 0 <= j < n2 ==> val(#[trigger] a@[i * n2 + j]) == twiddled(
                    xv,
                    w,
                    n1 as int,
                    n2 as int,
                    i,
                    j,
                ),
    {
        let mut row: Vec<Fr> = Vec::new();
        for k2 in 0..n2
            invariant
                n == x@.len(),
                n == n1 * n2,
                k1 < n1,
                canonical_all(x@),
                xv == vals(x@),
                row@.len() == k2,
                canonical_all(row@),
                forall|k: int| 0 <= k < k2 ==> val(#[trigger] row@[k]) == xv[k1 + n1 * k],
        {
            proof {
                lemma_cell(k2 as int, k1 as int, n2 as int, n1 as int);
                lemma_mul_is_commutative(n1 as int, n2 as int);
                lemma_mul_is_commutative(n1 as int, k2 as int);
                assert(canonical(x@[k1 + n1 * k2]));
            }
            row.push(x[k1 + n1 * k2]);
        }
        assert(vals(row@) =~= matrix_row(xv, n1 as int, n2 as int, k1 as int));
        transform_row(row.as_mut_slice(), omega_row, log_n2 as u32, Some(omega), k1, 0);
        let ghost before = a@;
        let ghost done = row@;
        a.append(&mut row);
        proof {
            let res = row_result(
                matrix_row(xv, n1 as int, n2 as int, k1 as int),
                fpow(w, n1 as nat),
                Some(w),
                k1 as int,
            );
            lemma_mul_is_distributive_add_other_way(n2 as int, k1 as int, 1);
            assert forall|i: int, j: int| 0 <= i < k1 + 1 && 0 <= j < n2 implies val(
                #[trigger] a@[i * n2 + j],
            ) == twiddled(xv, w, n1 as int, n2 as int, i, j) by {
                lemma_cell(i, j, k1 + 1, n2 as int);
                if i < k1 {
                    lemma_cell(i, j, k1 as int, n2 as int);
                    assert(a@[i * n2 + j] == before[i * n2 + j]);
                } else {
                    assert(a@[i * n2 + j] == done[j]);
                    assert(vals(done)[j] == res[j]);
                }
            }
            assert forall|k: int| 0 <= k < a@.len() implies #[trigger] canonical(a@[k]) by {
                if k < before.len() {
                    assert(canonical(before[k]));
                } else {
                    assert(canonical(done[k - before.len()]));
                }
            }
        }
    }

    // Column transforms, written to the transposed output index.
    let mut y = zeros(n);
    for j2 in 0..n2
        invariant
            n == x@.len(),
            n == n1 * n2,
            n1 > 0,
            n2 > 0,
            n1 == pow2(log_n1 as nat),
            log_n1 < usize::BITS,
            xv == vals(x@),
            w == val(omega),
            canonical(omega_col),
            val(omega_col) == fpow(w, n2 as nat),
            primitive_root(val(omega_col), n1 as int),
            (n1 > 1 && n2 > 1) ==> fpow(w, (n1 * n2) as nat) == 1,
            a@.len() == n1 * n2,
            canonical_all(a@),
            forall|i: int, j: int|
                0 <= i < n1 && 0 <= j < n2 ==> val(#[trigger] a@[i * n2 + j]) == twiddled(
                    xv,
                    w,
                    n1 as int,
                    n2 as int,
                    i,
                    j,
                ),
            y@.len() == n,
            canonical_all(y@),
            forall|i: int, j: int|
                0 <= i < n1 && 0 <= j < j2 ==> val(#[trigger] y@[i * n2 + j]) == dft_at(
                    xv,
                    w,
                    j + n2 * i,
                ),
    {
        let mut col: Vec<Fr> = Vec::new();
        for k1 in 0..n1
            invariant
                n == n1 * n2,
                j2 < n2,
                a@.len() == n1 * n2,
                n == x@.len(),
                canonical_all(a@),
                col@.len() == k1,
                canonical_all(col@),
                forall|i: int, j: int|
                    0 <= i < n1 && 0 <= j < n2 ==> val(#[trigger] a@[i * n2 + j]) == twiddled(
                        xv,
                        w,
                        n1 as int,
                        n2 as int,
                        i,
                        j,
                    ),
                forall|k: int|
                    0 <= k < k1 ==> val(#[trigger] col@[k]) == twiddled(
                        xv,
                        w,
                        n1 as int,
                        n2 as int,
                        k,
                        j2 as int,
                    ),
        {
            proof {
                lemma_cell(k1 as int, j2 as int, n1 as int, n2 as int);
                assert(canonical(a@[k1 * n2 + j2]));
            }
            col.push(a[k1 * n2 + j2]);
        }
        assert(vals(col@) =~= twiddled_column(xv, w, n1 as int, n2 as int, j2 as int));
        transform_row(col.as_mut_slice(), omega_col, log_n1 as u32, None, j2, 0);
        let ghost colv = twiddled_column(xv, w, n1 as int, n2 as int, j2 as int);
        for j1 in 0..n1
            invariant
                n == n1 * n2,
                n == x@.len(),
                j2 < n2,
                n2 > 0,
                xv.len() == n1 * n2,
                (n1 > 1 && n2 > 1) ==> fpow(w, (n1 * n2) as nat) == 1,
                col@.len() == n1,
                canonical_all(col@),
                colv == twiddled_column(xv, w, n1 as int, n2 as int, j2 as int),
                vals(col@) == row_result(colv, fpow(w, n2 as nat), None, j2 as int),
                y@.len() == n,
                canonical_all(y@),
                forall|i: int, j: int|
                    0 <= i < n1 && 0 <= j < j2 ==> val(#[trigger] y@[i * n2 + j]) == dft_at(
                        xv,
                        w,
                        j + n2 * i,
                    ),
                forall|i: int|
                    0 <= i < j1 ==> val(#[trigger] y@[i * n2 + j2]) == dft_at(
                        xv,
                        w,
                        j2 + n2 * i,
                    ),
        {
            let ghost before = y@;
            proof {
                lemma_cell(j1 as int, j2 as int, n1 as int, n2 as int);
                lemma_mul_is_commutative(n2 as int, j1 as int);
                assert(canonical(col@[j1 as int]));
                assert(vals(col@)[j1 as int] == val(col@[j1 as int]));
                lemma_four_step(xv, w, n1 as int, n2 as int, j1 as int, j2 as int);
            }
            let v = col[j1];
            y[j2 + n2 * j1] = v;
            proof {
                assert forall|i: int, j: int| 0 <= i < n1 && 0 <= j < j2 implies val(
                    #[trigger] y@[i * n2 + j],
                ) == dft_at(xv, w, j + n2 * i) by {
                    lemma_cell(i, j, n1 as int, n2 as int);
                    assert(y@[i * n2 + j] == before[i * n2 + j]);
                }
                assert forall|i: int| 0 <= i < j1 + 1 implies val(#[trigger] y@[i * n2 + j2])
                    == dft_at(xv, w, j2 + n2 * i) by {
                    lemma_cell(i, j2 as int, n1 as int, n2 as int);
                    if i < j1 {
                        assert(y@[i * n2 + j2] == before[i * n2 + j2]);
                    }
                }
                assert forall|k: int| 0 <= k < n implies #[trigger] canonical(y@[k]) by {
                    assert(canonical(before[k]));
                }
            }
        }
    }
    proof {
        assert forall|k: int| 0 <= k < n implies vals(y@)[k] == dft(xv, w)[k] by {
            lemma_index(k, n1 as int, n2 as int);
            let i = k / n2 as int;
            let j = k % n2 as int;
            assert(val(y@[i * n2 + j]) == dft_at(xv, w, j + n2 * i));
            lemma_mul_is_commutative(n2 as int, i);
        }
        assert(vals(y@) =~= dft(xv, w));
    }
    y
}

/// `n` zero elements.
pub(crate) fn zeros(n: usize) -> (r: Vec<Fr>)
    ensures
        r@.len() == n,
        canonical_all(r@),
        forall|i: int| 0 <= i < n ==> val(#[trigger] r@[i]) == 0,
{
    let mut r: Vec<Fr> = Vec::new();
    for i in 0..n
        invariant
            r@.len() == i,
            canonical_all(r@),
            forall|k: int| 0 <= k < i ==> val(#[trigger] r@[k]) == 0,
    {
        r.push(fr_zero());
    }
    r
}

/// A `rows x cols` row-major matrix, transposed to `cols x rows`.
pub open spec fn transposed<T>(x: Seq<T>, rows: int, cols: int) -> Seq<T> {
    Seq::new((rows * cols) as nat, |k: int| x[(k % rows) * cols + k / rows])
}

/// Row `r` of a row-major matrix.
pub open spec fn row_of<T>(x: Seq<T>, row_len: int, r: int) -> Seq<T> {
    x.subrange(r * row_len, (r + 1) * row_len)
}

/// A matrix with every row transformed.
pub open spec fn rows_transformed(
    x: Seq<int>,
    num_rows: int,
    row_len: int,
    w: int,
    twiddle: Option<int>,
) -> Seq<int> {
    Seq::new(
        (num_rows * row_len) as nat,
        |k: int| row_entry(row_of(x, row_len, k / row_len), w, twiddle, k / row_len, k % row_len),
    )
}

/// The five out-of-core steps, one after the other, are the whole transform: transpose,
/// transform the rows with the twiddle, transpose, transform the rows, transpose.
pub proof fn law_five_steps(x: Seq<int>, w: int, k1: nat, k2: nat)
    requires
        x.len() == pow2(k1 + k2),
        primitive_root(w, x.len() as int),
    ensures
        ({
            let n1 = pow2(k1) as int;
            let n2 = pow2(k2) as int;
            let q = transposed(x, n2, n1);
            let b = rows_transformed(q, n1, n2, fpow(w, n1 as nat), Some(w));
            let c = transposed(b, n1, n2);
            let s = rows_transformed(c, n2, n1, fpow(w, n2 as nat), None);
            transposed(s, n2, n1) == dft(x, w)
        }),
{
    let n1 = pow2(k1) as int;
    let n2 = pow2(k2) as int;
    lemma_pow2_adds(k1, k2);
    lemma_pow2_pos(k1);
    lemma_pow2_pos(k2);
    lemma_sub_roots(w, k1, k2);
    lemma_mul_is_commutative(n1, n2);
    let q = transposed(x, n2, n1);
    let b = rows_transformed(q, n1, n2, fpow(w, n1 as nat), Some(w));
    let c = transposed(b, n1, n2);
    let s = rows_transformed(c, n2, n1, fpow(w, n2 as nat), None);
    let y = transposed(s, n2, n1);
    assert forall|i: int| 0 <= i < n1 implies #[trigger] row_of(q, n2, i) == matrix_row(
        x,
        n1,
        n2,
        i,
    ) by {
        lemma_cell(i, 0, n1, n2);
        assert forall|j: int| 0 <= j < n2 implies row_of(q, n2, i)[j] == matrix_row(
            x,
            n1,
            n2,
            i,
        )[j] by {
            lemma_cell(i, j, n1, n2);
            lemma_mul_is_commutative(n1, j);
        }
        assert(row_of(q, n2, i) =~= matrix_row(x, n1, n2, i));
    }
    assert forall|j: int| 0 <= j < n2 implies #[trigger] row_of(c, n1, j) == twiddled_column(
        x,
        w,
        n1,
        n2,
        j,
    ) by {
        lemma_cell(j, 0, n2, n1);
        assert forall|i: int| 0 <= i < n1 implies row_of(c, n1, j)[i] == twiddled_column(
            x,
            w,
            n1,
            n2,
            j,
        )[i] by {
            lemma_cell(j, i, n2, n1);
            lemma_cell(i, j, n1, n2);
            assert(c[j * n1 + i] == b[i * n2 + j]);
            assert(b[i * n2 + j] == row_entry(row_of(q, n2, i), fpow(w, n1 as nat), Some(w), i, j));
        }
        assert(row_of(c, n1, j) =~= twiddled_column(x, w, n1, n2, j));
    }
    assert forall|k: int| 0 <= k < x.len() implies y[k] == dft(x, w)[k] by {
        lemma_index(k, n1, n2);
        let i = k / n2;
        let j = k % n2;
        lemma_cell(j, i, n2, n1);
        assert(y[k] == s[j * n1 + i]);
        assert(s[j * n1 + i] == row_entry(row_of(c, n1, j), fpow(w, n2 as nat), None, j, i));
        lemma_four_step(x, w, n1, n2, i, j);
        lemma_mul_is_commutative(n2, i);
    }
    assert(y =~= dft(x, w));
}

/// The sizes and roots of a four-step transform.
#[derive(Clone, Copy, Debug)]
pub struct FourStep {
    pub n1: usize,
    pub n2: usize,
    pub log_n1: u32,
    pub log_n2: u32,
    /// A root of order `n2`.
    pub omega_row: Fr,
    /// A root of order `n1`.
    pub omega_col: Fr,
}

impl FourStep {
    /// The sizes and roots of a transform of size `2^log_n` with root `omega`.
    pub fn new(omega: Fr, log_n: usize) -> (r: Self)
        requires
            pow2(log_n as nat) <= usize::MAX,
            canonical(omega),
        ensures
            r.log_n1 == log_n / 2,
            r.log_n2 == log_n - log_n / 2,
            r.n1 == pow2(r.log_n1 as nat),
            r.n2 == pow2(r.log_n2 as nat),
            canonical(r.omega_row),
            val(r.omega_row) == fpow(val(omega), r.n1 as nat),
            canonical(r.omega_col),
            val(r.omega_col) == fpow(val(omega), r.n2 as nat),
    {
        let (n1, n2) = factor(log_n);
        proof {
            lemma_exponent_fits(log_n as nat);
        }
        let log_n1: usize = log_n / 2;
        let log_n2: usize = log_n - log_n1;
        let omega_row = fr_pow(&omega, n1 as u64);
        let omega_col = fr_pow(&omega, n2 as u64);
        FourStep { n1, n2, log_n1: log_n1 as u32, log_n2: log_n2 as u32, omega_row, omega_col }
    }
}

/// What a file of records holds after `elems` were written at record `off`.
pub open spec fn written<T>(file: Seq<T>, off: int, elems: Seq<T>) -> Seq<T> {
    Seq::new(
        file.len(),
        |k: int|
            if off <= k < off + elems.len() {
                elems[k - off]
            } else {
                file[k]
            },
    )
}

/// A block of a matrix: `bi` rows from `i0`, `bj` columns from `j0`.
#[derive(Clone, Copy)]
pub struct Block {
    pub i0: usize,
    pub j0: usize,
    pub bi: usize,
    pub bj: usize,
}

/// Progress of an out-of-core transpose of a `rows x cols` matrix, block by block: the
/// next block starts at `(i0, j0)`. The resident set is one block.
pub struct TransposePlan {
    pub rows: usize,
    pub cols: usize,
    pub block: usize,
    pub i0: usize,
    pub j0: usize,
}

impl TransposePlan {
    pub open spec fn wf(self) -> bool {
        &&& self.block > 0
        &&& self.rows * self.cols <= usize::MAX
        &&& self.i0 <= self.rows
        &&& self.i0 < self.rows ==> self.j0 < self.cols
    }

    /// The block to move next, as the plan's position gives it.
    pub open spec fn next_block(self) -> Block {
        Block {
            i0: self.i0,
            j0: self.j0,
            bi: if self.block < self.rows - self.i0 {
                self.block
            } else {
                (self.rows - self.i0) as usize
            },
            bj: if self.block < self.cols - self.j0 {
                self.block
            } else {
                (self.cols - self.j0) as usize
            },
        }
    }

    /// Whether cell `(i, j)` of the source has been moved.
    pub open spec fn moved(self, i: int, j: int) -> bool {
        i < self.i0 || (i < self.i0 + self.next_block().bi && j < self.j0)
    }

    /// Every moved cell stands transposed in the destination.
    pub open spec fn progress<T>(self, src: Seq<T>, dst: Seq<T>) -> bool {
        &&& src.len() == self.rows * self.cols
        &&& dst.len() == self.rows * self.cols
        &&& forall|i: int, j: int|
            0 <= i < self.rows && 0 <= j < self.cols && self.moved(i, j)
                ==> #[trigger] dst[j * self.rows + i] == src[i * self.cols + j]
    }

    /// A plan that has moved nothing.
    pub fn new(rows: usize, cols: usize, block: usize) -> (r: Self)
        requires
            block > 0,
            rows * cols <= usize::MAX,
        ensures
            r.wf(),
            r.rows == rows,
            r.cols == cols,
            r.block == block,
            r.j0 == 0,
            r.i0 == (if cols == 0 {
                rows
            } else {
                0
            }),
    {
        TransposePlan { rows, cols, block, i0: if cols == 0 { rows } else { 0 }, j0: 0 }
    }

    /// The next block, if any is left.
    pub fn current(&self) -> (r: Option<Block>)
        requires
            self.wf(),
        ensures
            r == (if self.i0 < self.rows {
                Some(self.next_block())
            } else {
                None
            }),
            r matches Some(b) ==> {
                &&& b.i0 == self.i0
                &&& b.j0 == self.j0
                &&& b.bi == (if self.block < self.rows - self.i0 {
                    self.block as int
                } else {
                    self.rows - self.i0
                })
                &&& b.bj == (if self.block < self.cols - self.j0 {
                    self.block as int
                } else {
                    self.cols - self.j0
                })
            },
    {
        if self.i0 < self.rows {
            let bi: usize = if self.block < self.rows - self.i0 {
                self.block
            } else {
                self.rows - self.i0
            };
            let bj: usize = if self.block < self.cols - self.j0 {
                self.block
            } else {
                self.cols - self.j0
            };
            Some(Block { i0: self.i0, j0: self.j0, bi, bj })
        } else {
            None
        }
    }

    /// Where row `i` of a block starts in the source; `bj` records are read from there.
    pub fn read_offset(&self, b: &Block, i: usize) -> (r: usize)
        requires
            self.wf(),
            b.i0 + b.bi <= self.rows,
            b.j0 + b.bj <= self.cols,
            i < b.bi,
        ensures
            r == (b.i0 + i) * self.cols + b.j0,
            r + b.bj <= self.rows * self.cols,
    {
        proof {
            lemma_rows_fit(b.i0 + i, self.rows as int, self.cols as int);
            lemma_rows_fit(b.i0 + i + 1, self.rows as int, self.cols as int);
            lemma_mul_is_distributive_add_other_way(self.cols as int, b.i0 + i, 1);
        }
        (b.i0 + i) * self.cols + b.j0
    }

    /// Where column `j` of a block goes in the destination; `bi` records are written there.
    pub fn write_offset(&self, b: &Block, j: usize) -> (r: usize)
        requires
            self.wf(),
            b.i0 + b.bi <= self.rows,
            b.j0 + b.bj <= self.cols,
            j < b.bj,
        ensures
            r == (b.j0 + j) * self.rows + b.i0,
            r + b.bi <= self.rows * self.cols,
    {
        proof {
            lemma_mul_is_commutative(self.rows as int, self.cols as int);
            lemma_rows_fit(b.j0 + j, self.cols as int, self.rows as int);
            lemma_rows_fit(b.j0 + j + 1, self.cols as int, self.rows as int);
            lemma_mul_is_distributive_add_other_way(self.rows as int, b.j0 + j, 1);
        }
        (b.j0 + j) * self.rows + b.i0
    }

    /// The plan after its current block was moved.
    pub open spec fn after_block(self) -> TransposePlan {
        let b = self.next_block();
        if self.j0 + b.bj < self.cols {
            TransposePlan { j0: (self.j0 + b.bj) as usize, ..self }
        } else {
            TransposePlan { i0: (self.i0 + b.bi) as usize, j0: 0, ..self }
        }
    }

    /// Step past the current block.
    pub fn advance(&mut self)
        requires
            old(self).wf(),
            old(self).i0 < old(self).rows,
        ensures
            final(self).wf(),
            *final(self) == old(self).after_block(),
            final(self).rows == old(self).rows,
            final(self).cols == old(self).cols,
            final(self).block == old(self).block,
            old(self).block < old(self).cols - old(self).j0 ==> final(self).i0 == old(self).i0
                && final(self).j0 == old(self).j0 + old(self).block,
            old(self).block >= old(self).cols - old(self).j0 ==> final(self).j0 == 0
                && final(self).i0 == (if old(self).block < old(self).rows - old(self).i0 {
                old(self).i0 + old(self).block
            } else {
                old(self).rows as int
            }),
    {
        if let Some(b) = self.current() {
            if self.j0 + b.bj < self.cols {
                self.j0 = self.j0 + b.bj;
            } else {
                self.i0 = self.i0 + b.bi;
                self.j0 = 0;
            }
        }
    }
}

/// Column `j` of a `bi x bj` block held row by row.
pub open spec fn block_column<T>(block: Seq<T>, bi: int, bj: int, j: int) -> Seq<T> {
    Seq::new(bi as nat, |i: int| block[i * bj + j])
}

/// Column `j` of a `bi x bj` block held row by row.
pub fn column_of(block: &[Fr], bi: usize, bj: usize, j: usize) -> (r: Vec<Fr>)
    requires
        block@.len() == bi * bj,
        j < bj,
    ensures
        r@ == block_column(block@, bi as int, bj as int, j as int),
        r@.len() == bi,
        forall|i: int| 0 <= i < bi ==> #[trigger] r@[i] == block@[i * bj + j],
{
    let mut r: Vec<Fr> = Vec::new();
    let len = block.len();
    for i in 0..bi
        invariant
            len == bi * bj,
            block@.len() == len,
            j < bj,
            r@.len() == i,
            forall|k: int| 0 <= k < i ==> #[trigger] r@[k] == block@[k * bj + j],
    {
        proof {
            lemma_cell(i as int, j as int, bi as int, bj as int);
        }
        r.push(block[i * bj + j]);
    }
    assert(r@ =~= block_column(block@, bi as int, bj as int, j as int));
    r
}

/// What is read of the source for a block: its rows, one after the other.
pub open spec fn block_rows<T>(src: Seq<T>, cols: int, b: Block) -> Seq<T> {
    Seq::new(
        (b.bi * b.bj) as nat,
        |k: int| src[(b.i0 + k / b.bj as int) * cols + b.j0 + k % b.bj as int],
    )
}

/// The destination after the first `n` columns of a block were written.
pub open spec fn columns_written<T>(
    dst: Seq<T>,
    block: Seq<T>,
    rows: int,
    b: Block,
    n: nat,
) -> Seq<T>
    decreases n,
{
    if n == 0 {
        dst
    } else {
        written(
            columns_written(dst, block, rows, b, (n - 1) as nat),
            (b.j0 + n - 1) * rows + b.i0,
            block_column(block, b.bi as int, b.bj as int, n - 1),
        )
    }
}

/// What the columns of a block leave in the destination, cell by cell.
proof fn lemma_columns_written<T>(
    dst: Seq<T>,
    src: Seq<T>,
    rows: int,
    cols: int,
    b: Block,
    n: nat,
    i: int,
    j: int,
)
    requires
        dst.len() == rows * cols,
        src.len() == rows * cols,
        b.i0 + b.bi <= rows,
        b.j0 + b.bj <= cols,
        n <= b.bj,
        0 <= i < rows,
        0 <= j < cols,
    ensures
        columns_written(dst, block_rows(src, cols, b), rows, b, n).len() == dst.len(),
        columns_written(dst, block_rows(src, cols, b), rows, b, n)[j * rows + i] == (if b.i0 <= i
            < b.i0 + b.bi && b.j0 <= j < b.j0 + n {
            src[i * cols + j]
        } else {
            dst[j * rows + i]
        }),
    decreases n,
{
    let block = block_rows(src, cols, b);
    lemma_mul_is_commutative(rows, cols);
    lemma_cell(j, i, cols, rows);
    if n > 0 {
        let m = (n - 1) as nat;
        lemma_columns_written(dst, src, rows, cols, b, m, i, j);
        let off = (b.j0 + m) * rows + b.i0;
        let k = j * rows + i;
        let col = block_column(block, b.bi as int, b.bj as int, m as int);
        lemma_cell(b.j0 + m, 0, cols, rows);
        if j == b.j0 + m && b.i0 <= i < b.i0 + b.bi {
            assert(k - off == i - b.i0);
            lemma_cell(i - b.i0, m as int, b.bi as int, b.bj as int);
            assert(col[i - b.i0] == src[i * cols + j]);
        } else if off <= k < off + b.bi {
            // The written run lies in destination row `b.j0 + m`.
            assert(k == (b.j0 + m) * rows + (k - off + b.i0));
            lemma_cell(b.j0 + m, k - off + b.i0, cols, rows);
            assert(false);
        }
    }
}

/// A fresh plan has the progress it claims.
pub proof fn law_transpose_start<T>(plan: TransposePlan, src: Seq<T>, dst: Seq<T>)
    requires
        plan.wf(),
        plan.j0 == 0,
        plan.i0 == 0 || plan.cols == 0,
        src.len() == plan.rows * plan.cols,
        dst.len() == plan.rows * plan.cols,
    ensures
        plan.progress(src, dst),
{
}

/// Reading the current block's rows, writing its columns where the plan says and advancing
/// keeps the plan's progress.
pub proof fn law_transpose_step<T>(plan: TransposePlan, src: Seq<T>, dst: Seq<T>)
    requires
        plan.wf(),
        plan.i0 < plan.rows,
        plan.progress(src, dst),
    ensures
        plan.after_block().wf(),
        plan.after_block().progress(
            src,
            columns_written(
                dst,
                block_rows(src, plan.cols as int, plan.next_block()),
                plan.rows as int,
                plan.next_block(),
                plan.next_block().bj as nat,
            ),
        ),
{
    let b = plan.next_block();
    let rows = plan.rows as int;
    let cols = plan.cols as int;
    let dst2 = columns_written(dst, block_rows(src, cols, b), rows, b, b.bj as nat);
    let next = plan.after_block();
    lemma_columns_written(dst, src, rows, cols, b, b.bj as nat, 0, 0);
    assert forall|i: int, j: int| 0 <= i < rows && 0 <= j < cols && next.moved(i, j) implies
        #[trigger] dst2[j * rows + i] == src[i * cols + j] by {
        lemma_columns_written(dst, src, rows, cols, b, b.bj as nat, i, j);
        if !(b.i0 <= i < b.i0 + b.bi && b.j0 <= j < b.j0 + b.bj) {
            assert(plan.moved(i, j));
            assert(dst[j * rows + i] == src[i * cols + j]);
        }
    }
}

/// A finished plan has left the transposed matrix in the destination.
pub proof fn law_transpose_done<T>(plan: TransposePlan, src: Seq<T>, dst: Seq<T>)
    requires
        plan.wf(),
        plan.i0 == plan.rows,
        plan.progress(src, dst),
    ensures
        dst == transposed(src, plan.rows as int, plan.cols as int),
{
    let rows = plan.rows as int;
    let cols = plan.cols as int;
    assert forall|k: int| 0 <= k < dst.len() implies dst[k] == transposed(src, rows, cols)[k] by {
        lemma_mul_is_commutative(rows, cols);
        if rows == 0 {
            lemma_mul_basics(cols);
        }
        lemma_index(k, cols, rows);
        assert(plan.moved(k % rows, k / rows));
        assert(dst[(k / rows) * rows + k % rows] == src[(k % rows) * cols + k / rows]);
    }
    assert(dst =~= transposed(src, rows, cols));
}

/// Records per batch of rows held in memory at once.
pub const ROW_BATCH: usize = 0x4_0000;

/// Progress of an in-place transform of every row of a matrix, a bounded batch of rows at a
/// time: the rows before `r0` are done.
pub struct RowsPlan {
    pub num_rows: usize,
    pub row_len: usize,
    pub batch: usize,
    pub r0: usize,
}

impl RowsPlan {
    pub open spec fn wf(self) -> bool {
        &&& self.row_len > 0
        &&& 0 < self.batch <= self.num_rows
        &&& self.r0 <= self.num_rows
        &&& self.num_rows * self.row_len <= usize::MAX
    }

    /// The rows before `r0` are transformed, the others as in `x`.
    pub open spec fn progress(
        self,
        x: Seq<int>,
        file: Seq<Fr>,
        w: int,
        twiddle: Option<int>,
    ) -> bool {
        &&& x.len() == self.num_rows * self.row_len
        &&& file.len() == x.len()
        &&& canonical_all(file)
        &&& forall|k: int|
            0 <= k < x.len() ==> val(#[trigger] file[k]) == (if (k / (self.row_len as int)) < self.r0 {
                rows_transformed(x, self.num_rows as int, self.row_len as int, w, twiddle)[k]
            } else {
                x[k]
            })
    }

    /// How many rows the next batch has.
    pub open spec fn next_rows(self) -> int {
        if self.batch < self.num_rows - self.r0 {
            self.batch as int
        } else {
            self.num_rows - self.r0
        }
    }

    /// A plan that has transformed nothing. A batch holds as many rows as fit in
    /// `ROW_BATCH` records, at least one and at most all of them.
    pub fn new(num_rows: usize, row_len: usize) -> (r: Self)
        requires
            num_rows > 0,
            row_len > 0,
            num_rows * row_len <= usize::MAX,
        ensures
            r.wf(),
            r.num_rows == num_rows,
            r.row_len == row_len,
            r.r0 == 0,
            r.batch == (if ROW_BATCH / row_len < 1 {
                1
            } else if ROW_BATCH / row_len > num_rows {
                num_rows
            } else {
                (ROW_BATCH / row_len) as usize
            }),
    {
        let fit: usize = ROW_BATCH / row_len;
        let batch: usize = if fit < 1 {
            1
        } else if fit > num_rows {
            num_rows
        } else {
            fit
        };
        RowsPlan { num_rows, row_len, batch, r0: 0 }
    }

    /// The records of the next batch, as the first record and their number.
    pub fn current(&self) -> (r: Option<(usize, usize)>)
        requires
            self.wf(),
        ensures
            self.r0 == self.num_rows ==> r is None,
            self.r0 < self.num_rows ==> (r matches Some((off, count)) && off == self.r0
                * self.row_len && count == self.next_rows() * self.row_len && off + count
                <= self.num_rows * self.row_len),
            self.r0 < self.num_rows ==> (r matches Some((_, count)) && count == (if self.batch
                < self.num_rows - self.r0 {
                self.batch as int
            } else {
                self.num_rows - self.r0
            }) * self.row_len),
    {
        if self.r0 < self.num_rows {
            let rb: usize = if self.batch < self.num_rows - self.r0 {
                self.batch
            } else {
                self.num_rows - self.r0
            };
            proof {
                lemma_rows_fit(self.r0 as int, self.num_rows as int, self.row_len as int);
                lemma_rows_fit(rb as int, self.num_rows as int, self.row_len as int);
                lemma_rows_fit(self.r0 + rb, self.num_rows as int, self.row_len as int);
                lemma_mul_is_distributive_add_other_way(
                    self.row_len as int,
                    self.r0 as int,
                    rb as int,
                );
            }
            Some((self.r0 * self.row_len, rb * self.row_len))
        } else {
            None
        }
    }

    /// Step past the current batch.
    pub fn advance(&mut self)
        requires
            old(self).wf(),
            old(self).r0 < old(self).num_rows,
        ensures
            final(self).wf(),
            *final(self) == (RowsPlan { r0: (old(self).r0 + old(self).next_rows()) as usize, ..*old(self) }),
    {
        let rb: usize = if self.batch < self.num_rows - self.r0 {
            self.batch
        } else {
            self.num_rows - self.r0
        };
        self.r0 = self.r0 + rb;
    }
}

/// Each row of a batch, the first of them row `r0` of the matrix, is its transform.
pub open spec fn batch_transformed(
    before: Seq<Fr>,
    after: Seq<Fr>,
    r0: int,
    row_len: int,
    w: int,
    twiddle: Option<int>,
) -> bool {
    &&& after.len() == before.len()
    &&& canonical_all(after)
    &&& forall|i: int|
        0 <= i && (i + 1) * row_len <= before.len() ==> vals(#[trigger] row_of(after, row_len, i))
            == row_result(vals(row_of(before, row_len, i)), w, twiddle, r0 + i)
}

/// `rayon`'s `par_chunks_mut` over the rows of a batch, [`transform_row`] on each: the
/// chunks are disjoint and cover the batch in order, so each row ends as `transform_row`
/// leaves it.
#[verifier::external_body]
fn transform_rows_parallel(
    rows: &mut [Fr],
    row_len: usize,
    sub_omega: Fr,
    log_row_len: u32,
    twiddle: Option<Fr>,
    r0: usize,
)
    requires
        row_len == pow2(log_row_len as nat),
        row_len > 0,
        old(rows)@.len() % row_len as nat == 0,
        canonical_all(old(rows)@),
        canonical(sub_omega),
        primitive_root(val(sub_omega), row_len as int),
        twiddle is Some ==> canonical(twiddle->0),
        r0 + old(rows)@.len() / row_len as nat <= usize::MAX,
        r0 + old(rows)@.len() / row_len as nat <= u64::MAX,
    ensures
        batch_transformed(
            old(rows)@,
            final(rows)@,
            r0 as int,
            row_len as int,
            val(sub_omega),
            val_opt(twiddle),
        ),
{
    rows.par_chunks_mut(row_len).enumerate().for_each(
        |(i, row)| transform_row(row, sub_omega, log_row_len, twiddle, r0, i),
    );
}

/// Transform a batch of rows of length `row_len`, the first of them row `r0`.
pub fn transform_rows(
    rows: &mut [Fr],
    row_len: usize,
    sub_omega: Fr,
    log_row_len: u32,
    twiddle: Option<Fr>,
    r0: usize,
)
    requires
        row_len == pow2(log_row_len as nat),
        old(rows)@.len() % row_len as nat == 0,
        canonical_all(old(rows)@),
        canonical(sub_omega),
        primitive_root(val(sub_omega), row_len as int),
        twiddle is Some ==> canonical(twiddle->0),
        r0 + old(rows)@.len() / row_len as nat <= usize::MAX,
        r0 + old(rows)@.len() / row_len as nat <= u64::MAX,
    ensures
        batch_transformed(
            old(rows)@,
            final(rows)@,
            r0 as int,
            row_len as int,
            val(sub_omega),
            val_opt(twiddle),
        ),
{
    proof {
        lemma_pow2_pos(log_row_len as nat);
    }
    transform_rows_parallel(rows, row_len, sub_omega, log_row_len, twiddle, r0);
}

/// Rows of a batch are rows of the file it was read from.
proof fn lemma_batch_row<T>(file: Seq<T>, off: int, count: int, row_len: int, r0: int, i: int)
    requires
        row_len > 0,
        off == r0 * row_len,
        0 <= off,
        0 <= count,
        off + count <= file.len(),
        0 <= i,
        (i + 1) * row_len <= count,
    ensures
        row_of(file.subrange(off, off + count), row_len, i) == row_of(file, row_len, r0 + i),
{
    lemma_mul_is_distributive_add_other_way(row_len, r0, i);
    lemma_mul_is_distributive_add_other_way(row_len, r0 + i, 1);
    lemma_mul_is_distributive_add_other_way(row_len, i, 1);
    lemma_mul_nonnegative(i, row_len);
    assert(row_of(file.subrange(off, off + count), row_len, i) =~= row_of(file, row_len, r0 + i));
}

/// Reading the current batch, transforming its rows, writing it back where it came from
/// and advancing keeps the plan's progress.
pub proof fn law_rows_step(
    plan: RowsPlan,
    x: Seq<int>,
    file: Seq<Fr>,
    after: Seq<Fr>,
    w: int,
    twiddle: Option<int>,
)
    requires
        plan.wf(),
        plan.r0 < plan.num_rows,
        plan.progress(x, file, w, twiddle),
        batch_transformed(
            file.subrange(
                plan.r0 * plan.row_len,
                plan.r0 * plan.row_len + plan.next_rows() * plan.row_len,
            ),
            after,
            plan.r0 as int,
            plan.row_len as int,
            w,
            twiddle,
        ),
    ensures
        (RowsPlan { r0: (plan.r0 + plan.next_rows()) as usize, ..plan }).progress(
            x,
            written(file, plan.r0 * plan.row_len, after),
            w,
            twiddle,
        ),
{
    let len = plan.row_len as int;
    let n = plan.num_rows as int;
    let r0 = plan.r0 as int;
    let rb = plan.next_rows();
    let off = r0 * len;
    let count = rb * len;
    lemma_rows_fit(r0, n, len);
    lemma_rows_fit(rb, n, len);
    lemma_rows_fit(r0 + rb, n, len);
    lemma_mul_is_distributive_add_other_way(len, r0, rb);
    let batch = file.subrange(off, off + count);
    let file2 = written(file, off, after);
    let goal = rows_transformed(x, n, len, w, twiddle);
    assert forall|k: int| 0 <= k < x.len() implies canonical(#[trigger] file2[k]) && val(file2[k])
        == (if k / len < r0 + rb {
        goal[k]
    } else {
        x[k]
    }) by {
        lemma_index(k, n, len);
        let r = k / len;
        let j = k % len;
        if off <= k < off + count {
            // A record of the batch: row `r - r0` of it, column `j`.
            if r < r0 {
                lemma_rows_fit(r + 1, r0, len);
                lemma_mul_is_distributive_add_other_way(len, r, 1);
                assert(false);
            }
            if r >= r0 + rb {
                lemma_rows_fit(r0 + rb, r, len);
                assert(false);
            }
            let i = r - r0;
            lemma_cell(i, j, rb, len);
            lemma_mul_is_distributive_add_other_way(len, r0, i);
            assert(k - off == i * len + j);
            let row = row_of(batch, len, i);
            lemma_batch_row(file, off, count, len, r0, i);
            lemma_cell(r, 0, n, len);
            assert forall|q: int| 0 <= q < len implies vals(row)[q] == row_of(x, len, r)[q] by {
                lemma_cell(r, q, n, len);
                assert(val(file[r * len + q]) == x[r * len + q]);
            }
            assert(vals(row) =~= row_of(x, len, r));
            assert(canonical(after[k - off]));
            let res = row_of(after, len, i);
            assert(vals(res) == row_result(vals(row), w, twiddle, r0 + i));
            assert(vals(res)[j] == val(after[i * len + j]));
        } else {
            assert(file2[k] == file[k]);
            assert(canonical(file[k]));
            if r < r0 {
            } else if r < r0 + rb {
                lemma_rows_fit(r0, r, len);
                lemma_rows_fit(r + 1, r0 + rb, len);
                lemma_mul_is_distributive_add_other_way(len, r, 1);
                assert(false);
            }
        }
    }
    assert forall|k: int| 0 <= k < file2.len() implies #[trigger] canonical(file2[k]) by {
        assert(canonical(file2[k]));
    }
}

/// A fresh plan has the progress it claims, and a finished one has transformed every row.
pub proof fn law_rows_start_and_done(
    plan: RowsPlan,
    file: Seq<Fr>,
    x: Seq<int>,
    w: int,
    twiddle: Option<int>,
)
    requires
        plan.wf(),
        file.len() == plan.num_rows * plan.row_len,
        canonical_all(file),
    ensures
        plan.r0 == 0 ==> plan.progress(vals(file), file, w, twiddle),
        plan.r0 == plan.num_rows && plan.progress(x, file, w, twiddle) ==> vals(file)
            == rows_transformed(x, plan.num_rows as int, plan.row_len as int, w, twiddle),
{
    let n = plan.num_rows as int;
    let len = plan.row_len as int;
    if plan.r0 == 0 {
        assert forall|k: int| 0 <= k < file.len() implies val(#[trigger] file[k]) == vals(file)[k]
            && !(k / len < 0) by {
            lemma_index(k, n, len);
        }
    }
    if plan.r0 == plan.num_rows && plan.progress(x, file, w, twiddle) {
        assert forall|k: int| 0 <= k < file.len() implies vals(file)[k] == rows_transformed(
            x,
            n,
            len,
            w,
            twiddle,
        )[k] by {
            lemma_index(k, n, len);
            assert(val(file[k]) == rows_transformed(x, n, len, w, twiddle)[k]);
        }
        assert(vals(file) =~= rows_transformed(x, n, len, w, twiddle));
    }
}

/// Transposing records transposes the integers they stand for.
pub proof fn law_transposed_vals(s: Seq<Fr>, rows: int, cols: int)
    requires
        rows >= 0,
        cols >= 0,
        s.len() == rows * cols,
    ensures
        vals(transposed(s, rows, cols)) == transposed(vals(s), rows, cols),
        canonical_all(s) ==> canonical_all(transposed(s, rows, cols)),
{
    let t = transposed(s, rows, cols);
    assert forall|k: int| 0 <= k < t.len() implies 0 <= (k % rows) * cols + k / rows < s.len()
        && #[trigger] vals(t)[k] == transposed(vals(s), rows, cols)[k] by {
        lemma_mul_is_commutative(rows, cols);
        if rows == 0 {
            lemma_mul_basics(cols);
        }
        lemma_index(k, cols, rows);
        lemma_cell(k % rows, k / rows, rows, cols);
    }
    assert(vals(t) =~= transposed(vals(s), rows, cols));
    if canonical_all(s) {
        assert forall|k: int| 0 <= k < t.len() implies #[trigger] canonical(t[k]) by {
            assert(vals(t)[k] == transposed(vals(s), rows, cols)[k]);
            assert(canonical(s[(k % rows) * cols + k / rows]));
        }
    }
}

/// The coset shift of coefficient `i`: `zeta^(i mod 3)`.
pub open spec fn shifted(v: Seq<int>, zeta: int) -> Seq<int> {
    Seq::new(v.len(), |i: int| fmul(v[i], fpow(zeta, (i % 3) as nat)))
}

/// A sequence padded with zeros.
pub open spec fn padded(v: Seq<int>, len: nat) -> Seq<int> {
    Seq::new(
        len,
        |i: int|
            if i < v.len() {
                v[i]
            } else {
                0
            },
    )
}

/// The extended-domain values of a polynomial: its shifted coefficients, padded to `len`
/// and transformed with `w`.
pub open spec fn extended(v: Seq<int>, zeta: int, w: int, len: nat) -> Seq<int> {
    dft(padded(shifted(v, zeta), len), w)
}

/// Multiply coefficient `i` by `zeta^(i mod 3)`.
pub fn distribute_powers_zeta(coeffs: &[Fr], zeta: Fr) -> (r: Vec<Fr>)
    requires
        canonical_all(coeffs@),
        canonical(zeta),
    ensures
        canonical_all(r@),
        vals(r@) == shifted(vals(coeffs@), val(zeta)),
        r@.len() == coeffs@.len(),
        forall|i: int|
            0 <= i < r@.len() ==> val(#[trigger] r@[i]) == (val(coeffs@[i]) * pow(
                val(zeta),
                (i % 3) as nat,
            )) % modulus(),
{
    let zeta2 = fr_square(&zeta);
    let mut r: Vec<Fr> = Vec::new();
    proof {
        lemma_fpow_small(val(zeta));
        lemma_fpow_add(val(zeta), 1, 1);
    }
    for i in 0..coeffs.len()
        invariant
            canonical_all(coeffs@),
            canonical(zeta),
            canonical(zeta2),
            val(zeta2) == fpow(val(zeta), 2),
            fpow(val(zeta), 1) == val(zeta),
            fpow(val(zeta), 0) == 1,
            r@.len() == i,
            canonical_all(r@),
            forall|k: int|
                0 <= k < i ==> val(#[trigger] r@[k]) == shifted(vals(coeffs@), val(zeta))[k],
    {
        let j: usize = i % 3;
        proof {
            assert(canonical(coeffs@[i as int]));
            assert(vals(coeffs@)[i as int] == val(coeffs@[i as int]));
            lemma_fmul_one(val(coeffs@[i as int]));
        }
        if j == 0 {
            r.push(coeffs[i]);
        } else if j == 1 {
            r.push(fr_mul(&coeffs[i], &zeta));
        } else {
            r.push(fr_mul(&coeffs[i], &zeta2));
        }
    }
    assert(vals(r@) =~= shifted(vals(coeffs@), val(zeta)));
    proof {
        lemma_modulus_bounds();
        assert forall|i: int| 0 <= i < r@.len() implies val(#[trigger] r@[i]) == (val(coeffs@[i])
            * pow(val(zeta), (i % 3) as nat)) % modulus() by {
            assert(vals(r@)[i] == shifted(vals(coeffs@), val(zeta))[i]);
            reveal(fmul);
            reveal(fpow);
            lemma_mul_mod_noop_right(
                val(coeffs@[i]),
                pow(val(zeta), (i % 3) as nat),
                modulus(),
            );
        }
    }
    r
}

/// One times `a` is `a`.
proof fn lemma_fmul_one(a: int)
    requires
        0 <= a < modulus(),
    ensures
        fmul(a, 1) == a,
{
    reveal(fmul);
    lemma_small_mod(a as nat, modulus() as nat);
}

/// For a cube root of unity the shift of coefficient `i` is `zeta^i`.
pub proof fn law_shift_is_power(zeta: int, i: nat)
    requires
        fpow(zeta, 3) == 1,
    ensures
        fpow(zeta, i % 3) == fpow(zeta, i),
{
    lemma_fundamental_div_mod(i as int, 3);
    lemma_fpow_fpow(zeta, 3, i / 3);
    lemma_modulus_bounds();
    assert(fpow(1, i / 3) == 1) by {
        reveal(fpow);
        lemma1_pow(i / 3);
        lemma_small_mod(1, modulus() as nat);
    }
    lemma_fpow_add(zeta, i % 3, 3 * (i / 3));
    lemma_field_ranges();
    lemma_fmul_one(fpow(zeta, i % 3));
}

/// The extended values of a polynomial with coefficients `v`: at row `i`, each coefficient `j`
/// counts `zeta^(j mod 3) * w^(i * j)` times. What lies past the coefficients adds nothing.
pub proof fn law_extended_value(v: Seq<int>, zeta: int, w: int, len: nat, i: int)
    requires
        v.len() <= len,
        0 <= i < len,
    ensures
        extended(v, zeta, w, len).len() == len,
        extended(v, zeta, w, len)[i] == sum(
            |j: int| v[j] * (pow(zeta, (j % 3) as nat) * pow(w, (i * j) as nat)),
            v.len(),
        ) % modulus(),
{
    let m = modulus();
    let x = padded(shifted(v, zeta), len);
    let f = |j: int| x[j] * pow(w, (i * j) as nat);
    let g = |j: int| v[j] * (pow(zeta, (j % 3) as nat) * pow(w, (i * j) as nat));
    lemma_modulus_bounds();
    reveal(dft_at);
    let rest = (len - v.len()) as nat;
    lemma_sum_split(f, v.len(), rest);
    let tail = |j: int| f(v.len() + j);
    assert forall|j: int| 0 <= j < rest implies #[trigger] tail(j) == 0 by {
        assert(x[v.len() + j] == 0);
        lemma_mul_basics(pow(w, (i * (v.len() + j)) as nat));
    }
    lemma_sum_zero(tail, rest);
    assert forall|j: int| 0 <= j < v.len() implies (#[trigger] f(j)) % m == g(j) % m by {
        let z = pow(zeta, (j % 3) as nat);
        let p = pow(w, (i * j) as nat);
        reveal(fmul);
        reveal(fpow);
        lemma_mul_mod_noop_right(v[j], z, m);
        lemma_mod_twice(v[j] * z, m);
        assert(x[j] % m == (v[j] * z) % m);
        lemma_mul_congruent(x[j], v[j] * z, p, p, m);
        lemma_mul_is_associative(v[j], z, p);
    }
    lemma_sum_congruent(f, g, v.len(), m);
    assert(v.len() + rest == len);
}

/// With a cube root of unity for the shift, the extended values are the values of the
/// polynomial at the points `zeta * w^i` of the coset.
pub proof fn law_extended_is_evaluation(v: Seq<int>, zeta: int, w: int, len: nat, i: int)
    requires
        v.len() <= len,
        0 <= i < len,
        fpow(zeta, 3) == 1,
    ensures
        extended(v, zeta, w, len)[i] == sum(
            |j: int| v[j] * pow(zeta * pow(w, i as nat), j as nat),
            v.len(),
        ) % modulus(),
{
    let m = modulus();
    law_extended_value(v, zeta, w, len, i);
    lemma_modulus_bounds();
    let g = |j: int| v[j] * (pow(zeta, (j % 3) as nat) * pow(w, (i * j) as nat));
    let h = |j: int| v[j] * pow(zeta * pow(w, i as nat), j as nat);
    assert forall|j: int| 0 <= j < v.len() implies (#[trigger] g(j)) % m == h(j) % m by {
        law_shift_is_power(zeta, j as nat);
        reveal(fpow);
        assert(((j as nat) % 3) as nat == (j % 3) as nat);
        let p = pow(w, (i * j) as nat);
        lemma_mul_congruent(pow(zeta, (j % 3) as nat), pow(zeta, j as nat), p, p, m);
        lemma_pow_distributes(zeta, pow(w, i as nat), j as nat);
        lemma_pow_multiplies(w, i as nat, j as nat);
        lemma_mul_congruent(
            v[j],
            v[j],
            pow(zeta, (j % 3) as nat) * p,
            pow(zeta, j as nat) * p,
            m,
        );
    }
    lemma_sum_congruent(g, h, v.len(), m);
}

/// In-core `coeff_to_extended`: shift by the coset, pad with zeros to `2^extended_k`,
/// transform with `extended_omega`.
pub fn coeff_to_extended(
    coeffs: &[Fr],
    zeta: Fr,
    extended_omega: Fr,
    extended_k: usize,
) -> (r: Vec<Fr>)
    requires
        canonical_all(coeffs@),
        canonical(zeta),
        canonical(extended_omega),
        pow2(extended_k as nat) <= usize::MAX,
        coeffs@.len() <= pow2(extended_k as nat),
        primitive_root(val(extended_omega), pow2(extended_k as nat) as int),
    ensures
        canonical_all(r@),
        vals(r@) == extended(
            vals(coeffs@),
            val(zeta),
            val(extended_omega),
            pow2(extended_k as nat),
        ),
{
    let len = two_to(extended_k);
    let mut a = distribute_powers_zeta(coeffs, zeta);
    let ghost shift = shifted(vals(coeffs@), val(zeta));
    assert(a@.len() == vals(a@).len());
    while a.len() < len
        invariant
            shift.len() <= a@.len() <= len,
            canonical_all(a@),
            forall|i: int| 0 <= i < a@.len() ==> val(#[trigger] a@[i]) == padded(shift, len as nat)[i],
        decreases len - a@.len(),
    {
        a.push(fr_zero());
    }
    assert(vals(a@) =~= padded(shift, len as nat));
    proof {
        lemma_exponent_fits(extended_k as nat);
    }
    fr_fft(a.as_mut_slice(), extended_omega, extended_k as u32);
    a
}

} // verus!
