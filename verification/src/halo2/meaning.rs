//! What the transforms, the matrices and the records are, entry by entry.

use halo2curves::bn256::Fr;
use vstd::arithmetic::div_mod::*;
use vstd::arithmetic::mul::*;
use vstd::arithmetic::power::*;
use vstd::prelude::*;

use crate::field::{
    dft, dft_at, fmul, fpow, fr_raw, fr_repr, lemma_modulus_bounds, modulus,
};
use crate::grid::lemma_cell;
use crate::halo2::disk::{runs_read, runs_rows, Run};
use crate::halo2::fft::{row_entry, row_of, row_result, rows_transformed, transposed, written};
use crate::halo2::records::{is_raw_of, is_repr_of};
use crate::sums::{lemma_sum_eq, sum};

verus! {

/// Entry `i` of a transform: `Sum_j x[j] * w^(i * j)`.
pub proof fn law_transform(x: Seq<int>, w: int, i: int)
    requires
        0 <= i < x.len(),
    ensures
        dft(x, w).len() == x.len(),
        dft(x, w)[i] == sum(|j: int| x[j] * pow(w, (i * j) as nat), x.len()) % modulus(),
{
    reveal(dft_at);
}

/// Entry `j` of a transformed row of a matrix, row `r`: the transform of the row and, where a
/// twiddle is given, its `r * j`-th power as a factor.
pub proof fn law_transformed_row(row: Seq<int>, w: int, twiddle: Option<int>, r: int, j: int)
    requires
        0 <= j < row.len(),
    ensures
        ({
            let t = sum(|k: int| row[k] * pow(w, (j * k) as nat), row.len());
            let result = row_result(row, w, twiddle, r);
            &&& result.len() == row.len()
            &&& twiddle is None ==> result[j] == t % modulus()
            &&& twiddle is Some ==> result[j] == (t * pow(twiddle->0, (r * j) as nat)) % modulus()
        }),
{
    let t = sum(|k: int| row[k] * pow(w, (j * k) as nat), row.len());
    reveal(dft_at);
    reveal(fmul);
    reveal(fpow);
    lemma_modulus_bounds();
    if let Some(base) = twiddle {
        lemma_mul_mod_noop_general(t, pow(base, (r * j) as nat), modulus());
    }
}

/// Entry `(r, j)` of a matrix with every row transformed.
pub proof fn law_transformed_matrix(
    x: Seq<int>,
    num_rows: int,
    row_len: int,
    w: int,
    twiddle: Option<int>,
    r: int,
    j: int,
)
    requires
        0 <= r < num_rows,
        0 <= j < row_len,
        x.len() == num_rows * row_len,
    ensures
        ({
            let t = sum(|k: int| x[r * row_len + k] * pow(w, (j * k) as nat), row_len as nat);
            let result = rows_transformed(x, num_rows, row_len, w, twiddle);
            &&& result.len() == x.len()
            &&& twiddle is None ==> result[r * row_len + j] == t % modulus()
            &&& twiddle is Some ==> result[r * row_len + j] == (t * pow(
                twiddle->0,
                (r * j) as nat,
            )) % modulus()
        }),
{
    let row = row_of(x, row_len, r);
    let at = r * row_len + j;
    lemma_cell(r, j, num_rows, row_len);
    lemma_mul_is_distributive_add_other_way(row_len, r, 1);
    assert((r + 1) * row_len <= num_rows * row_len) by (nonlinear_arith)
        requires
            r + 1 <= num_rows,
            0 < row_len,
    ;
    lemma_mul_nonnegative(r, row_len);
    assert(row.len() == row_len);
    law_transformed_row(row, w, twiddle, r, j);
    lemma_fundamental_div_mod_converse(at, row_len, r, j);
    assert(rows_transformed(x, num_rows, row_len, w, twiddle)[at] == row_entry(
        row,
        w,
        twiddle,
        r,
        j,
    ));
    lemma_sum_eq(
        |k: int| row[k] * pow(w, (j * k) as nat),
        |k: int| x[r * row_len + k] * pow(w, (j * k) as nat),
        row_len as nat,
    );
}

/// Transposing takes entry `(r, c)` of a matrix to entry `(c, r)`.
pub proof fn law_transposed<T>(x: Seq<T>, rows: int, cols: int, r: int, c: int)
    requires
        0 <= r < rows,
        0 <= c < cols,
    ensures
        transposed(x, rows, cols).len() == rows * cols,
        transposed(x, rows, cols)[c * rows + r] == x[r * cols + c],
{
    lemma_mul_nonnegative(rows, cols);
    lemma_cell(c, r, cols, rows);
    lemma_mul_is_commutative(rows, cols);
    lemma_fundamental_div_mod_converse(c * rows + r, rows, c, r);
}

/// Writing a run changes the records of the run to those written, and no others.
pub proof fn law_written<T>(file: Seq<T>, off: int, elems: Seq<T>, k: int)
    requires
        0 <= off,
        off + elems.len() <= file.len(),
        0 <= k < file.len(),
    ensures
        written(file, off, elems).len() == file.len(),
        off <= k < off + elems.len() ==> written(file, off, elems)[k] == elems[k - off],
        k < off || off + elems.len() <= k ==> written(file, off, elems)[k] == file[k],
{
}

/// Files of raw and of canonical records: 32 bytes for each element, its own, in order.
pub proof fn law_records(b: Seq<u8>, s: Seq<Fr>)
    ensures
        is_raw_of(b, s) <==> b.len() == 32 * s.len() && forall|i: int| #![trigger s[i]]
            0 <= i < s.len() ==> b.subrange(32 * i, 32 * i + 32) == fr_raw(s[i]),
        is_repr_of(b, s) <==> b.len() == 32 * s.len() && forall|i: int| #![trigger s[i]]
            0 <= i < s.len() ==> b.subrange(32 * i, 32 * i + 32) == fr_repr(s[i]),
{
}

/// Runs cover, one after the other, the records from their first on, as many as they count.
pub proof fn law_runs<T>(file: Seq<T>, runs: Seq<Run>, run: Run)
    ensures
        runs_rows(Seq::<Run>::empty()) == Seq::<int>::empty(),
        runs_rows(runs.push(run)) == runs_rows(runs) + Seq::new(
            run.count as nat,
            |k: int| run.off + k,
        ),
        runs_read(file, Seq::<Run>::empty()) == Seq::<T>::empty(),
        runs_read(file, runs.push(run)) == runs_read(file, runs) + file.subrange(
            run.off as int,
            run.off + run.count,
        ),
{
    assert(runs.push(run).drop_last() =~= runs);
    assert(runs.push(run).last() == run);
}

} // verus!
