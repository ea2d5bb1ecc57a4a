//! The quotient of a PLONK proof, row by row: custom gates, permutation, lookups and shuffles,
//! folded into one value by powers of `y`.

use vstd::arithmetic::power2::*;
use vstd::prelude::*;

use crate::field::{fadd, fmul, fpow, fsub};
use crate::plonk::circuit::{cell, rotated, row_of, Any, ColumnMid, Env, Tables};
use crate::plonk::evaluator::Evaluator;

verus! {

/// One more term folded into a value.
pub open spec fn fold(v: int, y: int, term: int) -> int {
    fadd(fmul(v, y), term)
}

/// The field's cube root of unity, which shifts the coset.
pub open spec fn zeta() -> int {
    0x30644e72e131a029048b6e193fd84104cc37a73fec2bc5e9b8ca0b2d36636f23int
}

/// The multiplier that tells the permutation's columns apart.
pub open spec fn delta() -> int {
    fpow(7, pow2(28))
}

/// All that the quotient takes from the cosets at one row.
pub ghost struct Row {
    pub env: Env,
    pub l0: int,
    pub l_last: int,
    pub l_active: int,
    /// The row's point of the extended domain, less the coset's shift.
    pub x: int,
    /// The permutation's columns.
    pub columns: Seq<int>,
    /// The permutation polynomials, one for each column.
    pub sigmas: Seq<int>,
    /// The permutation's products, one for each set: here, at the next row, at the last row.
    pub z: Seq<int>,
    pub z_next: Seq<int>,
    pub z_last: Seq<int>,
    /// The lookups' products, here and at the next row.
    pub lookup_z: Seq<int>,
    pub lookup_z_next: Seq<int>,
    /// The lookups' permuted inputs, here and at the previous row, and permuted tables.
    pub lookup_a: Seq<int>,
    pub lookup_a_prev: Seq<int>,
    pub lookup_s: Seq<int>,
    /// The shuffles' products, here and at the next row.
    pub shuffle_z: Seq<int>,
    pub shuffle_z_next: Seq<int>,
}

/// A row's offer to a graph, with the given value as the previous one.
pub open spec fn with_previous(env: Env, previous: int) -> Env {
    Env { previous, ..env }
}

/// Custom gates.
pub open spec fn gates_term(ev: Evaluator, row: Row, v: int) -> int {
    ev.custom_gates.result(with_previous(row.env, v))
}

/// `l_0 * (1 - z) = 0` and `l_last * (z^2 - z) = 0`, which every product argument has.
pub open spec fn ends_terms(row: Row, first: int, last: int, v: int) -> int {
    let y = row.env.y;
    let v1 = fold(v, y, fmul(fsub(1, first), row.l0));
    fold(v1, y, fmul(fsub(fmul(last, last), last), row.l_last))
}

/// `l_0 * (z_i - z_{i-1}(omega^last X)) = 0` for the sets after the first.
pub open spec fn link_terms(row: Row, v: int, sets: nat) -> int
    decreases sets,
{
    if sets <= 1 {
        v
    } else {
        fold(
            link_terms(row, v, (sets - 1) as nat),
            row.env.y,
            fmul(fsub(row.z[sets - 1], row.z_last[sets - 2]), row.l0),
        )
    }
}

/// `z(omega X) * prod_j (p_j + beta * s_j + gamma)` over the columns `from..to`.
pub open spec fn left_product(row: Row, start: int, from: int, to: int) -> int
    decreases to - from,
{
    if to <= from {
        start
    } else {
        fmul(
            left_product(row, start, from, to - 1),
            fadd(
                fadd(row.columns[to - 1], fmul(row.env.beta, row.sigmas[to - 1])),
                row.env.gamma,
            ),
        )
    }
}

/// `delta^j * beta * zeta * omega^row`: the identity permutation's value in column `j`.
pub open spec fn identity_at(row: Row, j: int) -> int {
    fmul(fmul(fmul(row.env.beta, zeta()), row.x), fpow(delta(), j as nat))
}

/// `z(X) * prod_j (p_j + delta^j * beta * X + gamma)` over the columns `from..to`.
pub open spec fn right_product(row: Row, start: int, from: int, to: int) -> int
    decreases to - from,
{
    if to <= from {
        start
    } else {
        fmul(
            right_product(row, start, from, to - 1),
            fadd(fadd(row.columns[to - 1], identity_at(row, to - 1)), row.env.gamma),
        )
    }
}

/// The end of a set's columns.
pub open spec fn set_end(row: Row, chunk_len: int, set: int) -> int {
    if (set + 1) * chunk_len < row.columns.len() {
        (set + 1) * chunk_len
    } else {
        row.columns.len() as int
    }
}

/// `l_active * (left - right) = 0` for the first `sets` sets.
pub open spec fn set_terms(row: Row, chunk_len: int, v: int, sets: nat) -> int
    decreases sets,
{
    if sets == 0 {
        v
    } else {
        let s = sets - 1;
        let left = left_product(row, row.z_next[s], s * chunk_len, set_end(row, chunk_len, s));
        let right = right_product(row, row.z[s], s * chunk_len, set_end(row, chunk_len, s));
        fold(
            set_terms(row, chunk_len, v, s as nat),
            row.env.y,
            fmul(fsub(left, right), row.l_active),
        )
    }
}

/// The number of sets that have columns: one for each chunk of columns, as far as there are
/// products.
pub open spec fn sets_in_use(row: Row, chunk_len: int) -> nat {
    let chunks = (row.columns.len() + chunk_len - 1) / chunk_len;
    if row.z.len() < chunks {
        row.z.len()
    } else {
        chunks as nat
    }
}

/// The permutation argument; nothing where it has no sets.
pub open spec fn permutation_term(row: Row, chunk_len: int, v: int) -> int {
    if row.z.len() == 0 {
        v
    } else {
        let v1 = ends_terms(row, row.z[0], row.z.last(), v);
        let v2 = link_terms(row, v1, row.z.len());
        set_terms(row, chunk_len, v2, sets_in_use(row, chunk_len))
    }
}

/// A lookup argument, given the value of its compressed input and table expressions.
pub open spec fn lookup_with(row: Row, n: int, table_value: int, v: int) -> int {
    let y = row.env.y;
    let z = row.lookup_z[n];
    let a = row.lookup_a[n];
    let s = row.lookup_s[n];
    let a_minus_s = fsub(a, s);
    let v1 = ends_terms(row, z, z, v);
    let v2 = fold(
        v1,
        y,
        fmul(
            fsub(
                fmul(
                    fmul(row.lookup_z_next[n], fadd(a, row.env.beta)),
                    fadd(s, row.env.gamma),
                ),
                fmul(z, table_value),
            ),
            row.l_active,
        ),
    );
    let v3 = fold(v2, y, fmul(a_minus_s, row.l0));
    fold(v3, y, fmul(fmul(a_minus_s, fsub(a, row.lookup_a_prev[n])), row.l_active))
}

/// A lookup argument.
pub open spec fn lookup_term(ev: Evaluator, row: Row, n: int, v: int) -> int {
    lookup_with(row, n, ev.lookups@[n].result(with_previous(row.env, 0)), v)
}

/// The first `n` lookup arguments.
pub open spec fn lookup_terms(ev: Evaluator, row: Row, v: int, n: nat) -> int
    decreases n,
{
    if n == 0 {
        v
    } else {
        lookup_term(ev, row, n - 1, lookup_terms(ev, row, v, (n - 1) as nat))
    }
}

/// A shuffle argument, given the values of its compressed expressions.
pub open spec fn shuffle_with(
    row: Row,
    n: int,
    input_value: int,
    shuffle_value: int,
    v: int,
) -> int {
    let z = row.shuffle_z[n];
    let v1 = ends_terms(row, z, z, v);
    fold(
        v1,
        row.env.y,
        fmul(
            row.l_active,
            fsub(fmul(row.shuffle_z_next[n], shuffle_value), fmul(z, input_value)),
        ),
    )
}

/// A shuffle argument.
pub open spec fn shuffle_term(ev: Evaluator, row: Row, n: int, v: int) -> int {
    shuffle_with(
        row,
        n,
        ev.shuffles@[2 * n].result(with_previous(row.env, 0)),
        ev.shuffles@[2 * n + 1].result(with_previous(row.env, 0)),
        v,
    )
}

/// The first `n` shuffle arguments.
pub open spec fn shuffle_terms(ev: Evaluator, row: Row, v: int, n: nat) -> int
    decreases n,
{
    if n == 0 {
        v
    } else {
        shuffle_term(ev, row, n - 1, shuffle_terms(ev, row, v, (n - 1) as nat))
    }
}

/// A row's value with every term of one instance folded in: gates, permutation, lookups,
/// shuffles.
pub open spec fn row_value(ev: Evaluator, row: Row, chunk_len: int, v: int) -> int {
    let v1 = gates_term(ev, row, v);
    let v2 = permutation_term(row, chunk_len, v1);
    let v3 = lookup_terms(ev, row, v2, row.lookup_z.len());
    shuffle_terms(ev, row, v3, row.shuffle_z.len())
}

/// The cosets of one instance.
pub ghost struct CosetVals {
    pub tables: Tables,
    pub l0: Seq<int>,
    pub l_last: Seq<int>,
    pub l_active: Seq<int>,
    pub columns: Seq<ColumnMid>,
    pub sigmas: Seq<Seq<int>>,
    pub products: Seq<Seq<int>>,
    pub lookup_products: Seq<Seq<int>>,
    pub lookup_inputs: Seq<Seq<int>>,
    pub lookup_tables: Seq<Seq<int>>,
    pub shuffle_products: Seq<Seq<int>>,
    pub last_rotation: int,
}

/// Polynomials at a row.
pub open spec fn at_row(p: Seq<Seq<int>>, row: int) -> Seq<int> {
    Seq::new(p.len(), |j: int| p[j][row])
}

/// The permutation's columns at a row.
pub open spec fn columns_at(columns: Seq<ColumnMid>, t: Tables, row: int) -> Seq<int> {
    Seq::new(
        columns.len(),
        |j: int|
            match columns[j].column_type {
                Any::Fixed => cell(t.fixed, columns[j].index as int, row),
                Any::Advice => cell(t.advice, columns[j].index as int, row),
                Any::Instance => cell(t.instance, columns[j].index as int, row),
            },
    )
}

impl CosetVals {
    /// All that the quotient takes from row `idx` of cosets of `isize` rows.
    pub open spec fn row(&self, idx: int, rot_scale: int, isize: int, x: int) -> Row {
        let next = rotated(idx, 1, rot_scale, isize);
        let prev = rotated(idx, -1, rot_scale, isize);
        let last = rotated(idx, self.last_rotation, rot_scale, isize);
        Row {
            env: self.tables.env(row_of(idx, rot_scale, isize), 0),
            l0: self.l0[idx],
            l_last: self.l_last[idx],
            l_active: self.l_active[idx],
            x,
            columns: columns_at(self.columns, self.tables, idx),
            sigmas: at_row(self.sigmas, idx),
            z: at_row(self.products, idx),
            z_next: at_row(self.products, next),
            z_last: at_row(self.products, last),
            lookup_z: at_row(self.lookup_products, idx),
            lookup_z_next: at_row(self.lookup_products, next),
            lookup_a: at_row(self.lookup_inputs, idx),
            lookup_a_prev: at_row(self.lookup_inputs, prev),
            lookup_s: at_row(self.lookup_tables, idx),
            shuffle_z: at_row(self.shuffle_products, idx),
            shuffle_z_next: at_row(self.shuffle_products, next),
        }
    }
}

} // verus!
