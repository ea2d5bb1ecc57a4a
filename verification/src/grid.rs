//! Row-major indexing of a matrix in one sequence.

use vstd::arithmetic::div_mod::*;
use vstd::arithmetic::mul::*;
use vstd::prelude::*;

verus! {

/// Cell `(i, j)` of a `rows x cols` matrix lies inside it, and its index gives `i` and `j`
/// back.
pub proof fn lemma_cell(i: int, j: int, rows: int, cols: int)
    requires
        0 <= i < rows,
        0 <= j < cols,
    ensures
        0 <= i * cols + j < rows * cols,
        (i * cols + j) / cols == i,
        (i * cols + j) % cols == j,
        (i + 1) * cols == i * cols + cols,
        (i + 1) * cols <= rows * cols,
{
    lemma_fundamental_div_mod_converse(i * cols + j, cols, i, j);
    lemma_mul_is_distributive_add_other_way(cols, i, 1);
    lemma_mul_inequality(i + 1, rows, cols);
    lemma_mul_nonnegative(i, cols);
}

/// Every index of a matrix is that of a cell.
pub proof fn lemma_index(k: int, rows: int, cols: int)
    requires
        0 <= k < rows * cols,
        cols > 0,
    ensures
        0 <= k / cols < rows,
        0 <= k % cols < cols,
        k == (k / cols) * cols + k % cols,
{
    lemma_fundamental_div_mod(k, cols);
    lemma_mul_is_commutative(cols, k / cols);
    lemma_div_pos_is_pos(k, cols);
    if k / cols >= rows {
        lemma_mul_inequality(rows, k / cols, cols);
    }
}

/// The first rows of a matrix fit in it.
pub proof fn lemma_rows_fit(a: int, rows: int, cols: int)
    requires
        0 <= a <= rows,
        0 <= cols,
    ensures
        0 <= a * cols <= rows * cols,
{
    lemma_mul_inequality(a, rows, cols);
    lemma_mul_nonnegative(a, cols);
}

} // verus!
