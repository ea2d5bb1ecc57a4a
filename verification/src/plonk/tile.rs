//! The quotient over a run of rows, given the cosets (or windows of them) that hold the rows
//! and what their rotations lead to.

use halo2curves::bn256::Fr;
use vstd::arithmetic::div_mod::*;
use vstd::arithmetic::mul::*;
use vstd::arithmetic::power::*;
use vstd::prelude::*;

use crate::field::{
    canonical, canonical_all, fmul, fpow, fr_add, fr_delta, fr_mul, fr_one, fr_pow, fr_sub,
    fr_zero, fr_zeta, lemma_modulus_bounds, modulus, val, vals,
};
use crate::four_step::lemma_fpow_add;
use crate::plonk::circuit::{
    columns_wf, get_rotation_idx, rotated, rotation_fits_all, table_vals, Any, ColumnMid, Inputs, Polynomial,
};
use crate::plonk::evaluator::Evaluator;
use crate::plonk::graph::{
    graph_fits, graph_within, lemma_readable, limits_of, row_env, rows_at_least,
    EvaluationData, GraphEvaluator,
};
use crate::plonk::quotient::{
    at_row, columns_at, delta, ends_terms, fold, gates_term, identity_at, left_product, link_terms,
    lookup_term, lookup_terms, permutation_term, right_product, row_value, set_end, set_terms,
    sets_in_use, shuffle_term, shuffle_terms, with_previous, zeta, CosetVals, Row,
};

verus! {

/// The cosets of one instance, or windows of them.
pub struct Cosets<'a> {
    pub inputs: Inputs<'a>,
    pub l0: &'a Polynomial,
    pub l_last: &'a Polynomial,
    pub l_active_row: &'a Polynomial,
    /// The permutation's columns, and its polynomials, one for each column.
    pub columns: &'a [ColumnMid],
    pub sigmas: &'a [Polynomial],
    /// The permutation's products, one for each set.
    pub products: &'a [Polynomial],
    pub lookup_products: &'a [Polynomial],
    pub lookup_inputs: &'a [Polynomial],
    pub lookup_tables: &'a [Polynomial],
    pub shuffle_products: &'a [Polynomial],
    /// The number of columns of a set.
    pub chunk_len: usize,
    /// The rotation that leads to the last row in use.
    pub last_rotation: i32,
    pub extended_omega: Fr,
}

/// Where a tile lies: its first row within the cosets at hand, their number of rows, and its
/// first row within the domain.
#[derive(Clone, Copy, Debug)]
pub struct Place {
    pub first: usize,
    pub rot_scale: i32,
    pub isize: i32,
    pub start: usize,
}

/// The numbers of an instance's permutation sets, lookups and shuffles, and the rotation that
/// leads to the last row in use.
pub ghost struct Uses {
    pub sets: nat,
    pub lookups: nat,
    pub shuffles: nat,
    pub last_rotation: int,
}

/// Every rotation that some term uses can be counted from each of `len` rows.
pub open spec fn rotations_fit(
    ev: Evaluator,
    uses: Uses,
    first: int,
    len: int,
    rot_scale: int,
) -> bool {
    &&& graph_fits(ev.custom_gates, first, len, rot_scale)
    &&& uses.sets > 0 ==> rotation_fits_all(first, len, 1, rot_scale) && rotation_fits_all(
        first,
        len,
        uses.last_rotation,
        rot_scale,
    )
    &&& uses.lookups > 0 ==> rotation_fits_all(first, len, 1, rot_scale) && rotation_fits_all(
        first,
        len,
        -1,
        rot_scale,
    )
    &&& uses.shuffles > 0 ==> rotation_fits_all(first, len, 1, rot_scale)
    &&& forall|n: int|
        0 <= n < uses.lookups ==> graph_fits(#[trigger] ev.lookups@[n], first, len, rot_scale)
    &&& forall|n: int|
        0 <= n < 2 * uses.shuffles ==> graph_fits(
            #[trigger] ev.shuffles@[n],
            first,
            len,
            rot_scale,
        )
}

impl<'a> Cosets<'a> {
    /// The integers of the cosets.
    pub open spec fn model(&self) -> CosetVals {
        CosetVals {
            tables: self.inputs.tables(),
            l0: vals(self.l0.values@),
            l_last: vals(self.l_last.values@),
            l_active: vals(self.l_active_row.values@),
            columns: self.columns@,
            sigmas: table_vals(self.sigmas@),
            products: table_vals(self.products@),
            lookup_products: table_vals(self.lookup_products@),
            lookup_inputs: table_vals(self.lookup_inputs@),
            lookup_tables: table_vals(self.lookup_tables@),
            shuffle_products: table_vals(self.shuffle_products@),
            last_rotation: self.last_rotation as int,
        }
    }

    /// The terms that the cosets take part in.
    pub open spec fn uses(&self) -> Uses {
        Uses {
            sets: self.products@.len(),
            lookups: self.lookup_products@.len(),
            shuffles: self.shuffle_products@.len(),
            last_rotation: self.last_rotation as int,
        }
    }

    /// Every value is in reduced form.
    pub open spec fn wf(&self) -> bool {
        &&& self.inputs.wf()
        &&& canonical_all(self.l0.values@)
        &&& canonical_all(self.l_last.values@)
        &&& canonical_all(self.l_active_row.values@)
        &&& columns_wf(self.sigmas@)
        &&& columns_wf(self.products@)
        &&& columns_wf(self.lookup_products@)
        &&& columns_wf(self.lookup_inputs@)
        &&& columns_wf(self.lookup_tables@)
        &&& columns_wf(self.shuffle_products@)
        &&& canonical(self.extended_omega)
    }

    /// Every coset has at least `n` rows.
    pub open spec fn has_rows(&self, n: int) -> bool {
        &&& rows_at_least(self.inputs.fixed@, n)
        &&& rows_at_least(self.inputs.advice@, n)
        &&& rows_at_least(self.inputs.instance@, n)
        &&& n <= self.l0.values@.len()
        &&& n <= self.l_last.values@.len()
        &&& n <= self.l_active_row.values@.len()
        &&& rows_at_least(self.sigmas@, n)
        &&& rows_at_least(self.products@, n)
        &&& rows_at_least(self.lookup_products@, n)
        &&& rows_at_least(self.lookup_inputs@, n)
        &&& rows_at_least(self.lookup_tables@, n)
        &&& rows_at_least(self.shuffle_products@, n)
    }

    /// The parts belong together: one polynomial for each column of the permutation, three
    /// for each lookup, and a graph for each side of each argument.
    pub open spec fn matches(&self, ev: Evaluator) -> bool {
        &&& self.sigmas@.len() == self.columns@.len()
        &&& self.products@.len() > 0 ==> self.chunk_len > 0
        &&& self.lookup_inputs@.len() == self.lookup_products@.len()
        &&& self.lookup_tables@.len() == self.lookup_products@.len()
        &&& self.lookup_products@.len() <= ev.lookups@.len()
        &&& 2 * self.shuffle_products@.len() <= ev.shuffles@.len()
    }

    /// A tile of `len` rows can be evaluated.
    pub open spec fn ready(&self, ev: Evaluator, place: Place, len: int) -> bool {
        &&& ev.wf()
        &&& self.wf()
        &&& self.matches(ev)
        &&& 0 < place.isize
        &&& self.has_rows(place.isize as int)
        &&& place.first + len <= place.isize
        &&& place.start + len <= u64::MAX
        &&& rotations_fit(ev, self.uses(), place.first as int, len, place.rot_scale as int)
        &&& graph_within(ev.custom_gates, limits_of(self.inputs))
        &&& forall|n: int|
            0 <= n < self.lookup_products@.len() ==> graph_within(
                #[trigger] ev.lookups@[n],
                limits_of(self.inputs),
            )
        &&& forall|n: int|
            0 <= n < 2 * self.shuffle_products@.len() ==> graph_within(
                #[trigger] ev.shuffles@[n],
                limits_of(self.inputs),
            )
        &&& self.products@.len() > 0 ==> forall|j: int|
            0 <= j < self.columns@.len() ==> limits_of(self.inputs).allows_column(
                #[trigger] self.columns@[j],
            )
    }

    /// What the quotient takes from row `i` of a tile.
    pub open spec fn row(&self, place: Place, i: int) -> Row {
        self.model().row(
            place.first + i,
            place.rot_scale as int,
            place.isize as int,
            fpow(val(self.extended_omega), (place.start + i) as nat),
        )
    }
}

/// A product argument's end terms.
fn fold_ends(
    value: &Fr,
    y: &Fr,
    first: &Fr,
    last: &Fr,
    l0: &Fr,
    l_last: &Fr,
    Ghost(row): Ghost<Row>,
) -> (r: Fr)
    requires
        canonical(*value),
        canonical(*y),
        canonical(*first),
        canonical(*last),
        canonical(*l0),
        canonical(*l_last),
        val(*y) == row.env.y,
        val(*l0) == row.l0,
        val(*l_last) == row.l_last,
    ensures
        canonical(r),
        val(r) == ends_terms(row, val(*first), val(*last), val(*value)),
{
    let one = fr_one();
    let v1 = fold_term(value, y, &fr_mul(&fr_sub(&one, first), l0));
    fold_term(&v1, y, &fr_mul(&fr_sub(&fr_mul(last, last), last), l_last))
}

/// One more term folded into a value.
fn fold_term(value: &Fr, y: &Fr, term: &Fr) -> (r: Fr)
    requires
        canonical(*value),
        canonical(*y),
        canonical(*term),
    ensures
        canonical(r),
        val(r) == fold(val(*value), val(*y), val(*term)),
{
    fr_add(&fr_mul(value, y), term)
}

/// A value of a coset, in reduced form.
fn value_at(p: &Polynomial, row: usize) -> (r: Fr)
    requires
        canonical_all(p.values@),
        row < p.values@.len(),
    ensures
        canonical(r),
        val(r) == vals(p.values@)[row as int],
{
    assert(canonical(p.values@[row as int]));
    p.values[row]
}

/// Evaluate a graph on a row of a tile.
fn graph_at(
    g: &GraphEvaluator,
    data: &mut EvaluationData,
    cosets: &Cosets,
    previous: &Fr,
    place: Place,
    i: usize,
    Ghost(len): Ghost<int>,
) -> (r: Fr)
    requires
        g.wf(),
        graph_within(*g, limits_of(cosets.inputs)),
        graph_fits(*g, place.first as int, len, place.rot_scale as int),
        i < len,
        cosets.wf(),
        cosets.has_rows(place.isize as int),
        0 < place.isize,
        place.first + i < place.isize,
        canonical(*previous),
        old(data).intermediates@.len() == g.num_intermediates,
        canonical_all(old(data).intermediates@),
        old(data).rotations@.len() == g.rotations@.len(),
    ensures
        canonical(r),
        val(r) == g.result(with_previous(cosets.row(place, i as int).env, val(*previous))),
        final(data).intermediates@.len() == g.num_intermediates,
        canonical_all(final(data).intermediates@),
        final(data).rotations@.len() == g.rotations@.len(),
{
    let idx: usize = place.first + i;
    proof {
        lemma_readable(
            *g,
            cosets.inputs,
            idx as int,
            place.rot_scale as int,
            place.isize as int,
        );
    }
    let r = g.evaluate_row(data, &cosets.inputs, previous, idx, place.rot_scale, place.isize);
    proof {
        assert(vals(data.intermediates@).len() == data.intermediates@.len());
        crate::plonk::graph::lemma_results_len(
            *g,
            row_env(
                cosets.inputs,
                idx as int,
                place.rot_scale as int,
                place.isize as int,
                val(*previous),
            ),
            g.calculations@.len(),
        );
        assert(with_previous(cosets.row(place, i as int).env, val(*previous)) == row_env(
            cosets.inputs,
            idx as int,
            place.rot_scale as int,
            place.isize as int,
            val(*previous),
        ));
    }
    r
}

/// Fold the custom gates into a tile.
fn gates_tile(
    ev: &Evaluator,
    cosets: &Cosets,
    tile: &mut Vec<Fr>,
    place: Place,
)
    requires
        cosets.ready(*ev, place, old(tile)@.len() as int),
        canonical_all(old(tile)@),
    ensures
        final(tile)@.len() == old(tile)@.len(),
        canonical_all(final(tile)@),
        forall|i: int| #![trigger final(tile)@[i]]
            0 <= i < old(tile)@.len() ==> val(final(tile)@[i]) == gates_term(
                *ev,
                cosets.row(place, i),
                val(old(tile)@[i]),
            ),
{
    let ghost before = tile@;
    let len = tile.len();
    let mut data = ev.custom_gates.instance();
    for i in 0..len
        invariant
            len == tile@.len(),
            tile@.len() == before.len(),
            cosets.ready(*ev, place, len as int),
            canonical_all(tile@),
            data.intermediates@.len() == ev.custom_gates.num_intermediates,
            canonical_all(data.intermediates@),
            data.rotations@.len() == ev.custom_gates.rotations@.len(),
            forall|j: int| i <= j < len ==> tile@[j] == before[j],
            forall|j: int| #![trigger tile@[j]]
                0 <= j < i ==> val(tile@[j]) == gates_term(
                    *ev,
                    cosets.row(place, j),
                    val(before[j]),
                ),
    {
        assert(canonical(tile@[i as int]));
        let previous = tile[i];
        let value = graph_at(
            &ev.custom_gates,
            &mut data,
            cosets,
            &previous,
            place,
            i,
            Ghost(len as int),
        );
        tile[i] = value;
    }
}

/// Multiplying the identity permutation's value by `delta` leads to the next column.
proof fn lemma_identity_step(row: Row, j: int)
    requires
        0 <= j,
    ensures
        fmul(identity_at(row, j), delta()) == identity_at(row, j + 1),
{
    let a = fmul(fmul(row.env.beta, zeta()), row.x);
    let p = fpow(delta(), j as nat);
    lemma_delta_elem();
    lemma_fpow_add(delta(), j as nat, 1);
    assert(fpow(delta(), 1) == delta()) by {
        reveal(fpow);
        lemma_pow1(delta());
        lemma_small_mod(delta() as nat, modulus() as nat);
    }
    lemma_fmul_assoc(a, p, delta());
}

/// The identity permutation's value in the first column.
proof fn lemma_identity_start(row: Row)
    ensures
        identity_at(row, 0) == fmul(fmul(row.env.beta, zeta()), row.x),
{
    let a = fmul(row.env.beta, zeta());
    lemma_modulus_bounds();
    reveal(fpow);
    reveal(fmul);
    lemma_pow0(delta());
    lemma_small_mod(1, modulus() as nat);
    lemma_mul_basics(fmul(a, row.x));
    lemma_mod_twice(a * row.x, modulus());
}

proof fn lemma_delta_elem()
    ensures
        0 <= delta() < modulus(),
{
    crate::field::lemma_field_ranges();
}

proof fn lemma_fmul_assoc(a: int, b: int, c: int)
    ensures
        fmul(fmul(a, b), c) == fmul(a, fmul(b, c)),
{
    lemma_modulus_bounds();
    reveal(fmul);
    let m = modulus();
    lemma_mul_mod_noop_left(a * b, c, m);
    lemma_mul_mod_noop_right(a, b * c, m);
    lemma_mul_is_associative(a, b, c);
}

/// The next row's point.
proof fn lemma_point_step(w: int, e: nat)
    requires
        0 <= w < modulus(),
    ensures
        fmul(fpow(w, e), w) == fpow(w, e + 1),
{
    lemma_fpow_add(w, e, 1);
    reveal(fpow);
    lemma_pow1(w);
    lemma_small_mod(w as nat, modulus() as nat);
}

/// A column of the permutation at a row.
fn column_value(inputs: &Inputs, column: &ColumnMid, row: usize) -> (r: Fr)
    requires
        inputs.wf(),
        limits_of(*inputs).allows_column(*column),
        rows_at_least(inputs.fixed@, row + 1),
        rows_at_least(inputs.advice@, row + 1),
        rows_at_least(inputs.instance@, row + 1),
    ensures
        canonical(r),
        val(r) == columns_at(seq![*column], inputs.tables(), row as int)[0],
{
    match column.column_type {
        Any::Advice => {
            assert(canonical_all(inputs.advice@[column.index as int].values@));
            value_at(&inputs.advice[column.index], row)
        },
        Any::Fixed => {
            assert(canonical_all(inputs.fixed@[column.index as int].values@));
            value_at(&inputs.fixed[column.index], row)
        },
        Any::Instance => {
            assert(canonical_all(inputs.instance@[column.index as int].values@));
            value_at(&inputs.instance[column.index], row)
        },
    }
}

/// A value of one of several cosets, in reduced form.
fn values_at(p: &[Polynomial], j: usize, row: usize) -> (r: Fr)
    requires
        columns_wf(p@),
        j < p@.len(),
        row < p@[j as int].values@.len(),
    ensures
        canonical(r),
        val(r) == at_row(table_vals(p@), row as int)[j as int],
{
    assert(canonical_all(p@[j as int].values@));
    value_at(&p[j], row)
}

/// The sides of a set's term, and the identity permutation's value past its columns.
fn set_sides(
    cosets: &Cosets,
    from: usize,
    to: usize,
    idx: usize,
    next: &Fr,
    here: &Fr,
    current_delta: &Fr,
    Ghost(row): Ghost<Row>,
) -> (r: (Fr, Fr, Fr))
    requires
        cosets.wf(),
        cosets.has_rows(idx + 1),
        cosets.sigmas@.len() == cosets.columns@.len(),
        from <= to <= cosets.columns@.len(),
        forall|j: int|
            0 <= j < cosets.columns@.len() ==> limits_of(cosets.inputs).allows_column(
                #[trigger] cosets.columns@[j],
            ),
        canonical(*next),
        canonical(*here),
        canonical(*current_delta),
        row.columns == columns_at(cosets.columns@, cosets.inputs.tables(), idx as int),
        row.sigmas == at_row(table_vals(cosets.sigmas@), idx as int),
        row.env.beta == val(cosets.inputs.beta),
        row.env.gamma == val(cosets.inputs.gamma),
        val(*current_delta) == identity_at(row, from as int),
    ensures
        canonical(r.0),
        canonical(r.1),
        canonical(r.2),
        val(r.0) == left_product(row, val(*next), from as int, to as int),
        val(r.1) == right_product(row, val(*here), from as int, to as int),
        val(r.2) == identity_at(row, to as int),
{
    let delta_elem = fr_delta();
    let mut left = *next;
    let mut right = *here;
    let mut current = *current_delta;
    for j in from..to
        invariant
            from <= to <= cosets.columns@.len(),
            cosets.wf(),
            cosets.has_rows(idx + 1),
            cosets.sigmas@.len() == cosets.columns@.len(),
            forall|j: int|
                0 <= j < cosets.columns@.len() ==> limits_of(cosets.inputs).allows_column(
                    #[trigger] cosets.columns@[j],
                ),
            row.columns == columns_at(cosets.columns@, cosets.inputs.tables(), idx as int),
            row.sigmas == at_row(table_vals(cosets.sigmas@), idx as int),
            row.env.beta == val(cosets.inputs.beta),
            row.env.gamma == val(cosets.inputs.gamma),
            canonical(delta_elem),
            val(delta_elem) == delta(),
            canonical(left),
            canonical(right),
            canonical(current),
            val(left) == left_product(row, val(*next), from as int, j as int),
            val(right) == right_product(row, val(*here), from as int, j as int),
            val(current) == identity_at(row, j as int),
    {
        let column = column_value(&cosets.inputs, &cosets.columns[j], idx);
        assert(val(column) == row.columns[j as int]);
        let sigma = values_at(cosets.sigmas, j, idx);
        let shifted = fr_add(&column, &fr_mul(&cosets.inputs.beta, &sigma));
        left = fr_mul(&left, &fr_add(&shifted, &cosets.inputs.gamma));
        right = fr_mul(&right, &fr_add(&fr_add(&column, &current), &cosets.inputs.gamma));
        proof {
            lemma_identity_step(row, j as int);
        }
        current = fr_mul(&current, &delta_elem);
    }
    (left, right, current)
}

/// A set has columns exactly when its first column is one.
proof fn lemma_set_in_use(columns: int, chunk_len: int, s: int)
    requires
        0 < chunk_len,
        0 <= columns,
        0 <= s,
    ensures
        s < (columns + chunk_len - 1) / chunk_len <==> s * chunk_len < columns,
{
    let a = columns + chunk_len - 1;
    let q = a / chunk_len;
    lemma_fundamental_div_mod(a, chunk_len);
    lemma_mod_bound(a, chunk_len);
    assert(s < q <==> s * chunk_len < columns) by (nonlinear_arith)
        requires
            0 < chunk_len,
            a == columns + chunk_len - 1,
            a == chunk_len * q + a % chunk_len,
            0 <= a % chunk_len,
            a % chunk_len < chunk_len,
    ;
}

/// Fold the permutation argument into one row.
fn permutation_row(
    cosets: &Cosets,
    value: &Fr,
    beta_term: &Fr,
    place: Place,
    i: usize,
    Ghost(ev): Ghost<Evaluator>,
    Ghost(len): Ghost<int>,
) -> (r: Fr)
    requires
        cosets.ready(ev, place, len),
        i < len,
        cosets.products@.len() > 0,
        canonical(*value),
        canonical(*beta_term),
        val(*beta_term) == cosets.row(place, i as int).x,
    ensures
        canonical(r),
        val(r) == permutation_term(
            cosets.row(place, i as int),
            cosets.chunk_len as int,
            val(*value),
        ),
{
    let ghost row = cosets.row(place, i as int);
    let idx: usize = place.first + i;
    let r_next = get_rotation_idx(idx, 1, place.rot_scale, place.isize);
    let r_last = get_rotation_idx(idx, cosets.last_rotation, place.rot_scale, place.isize);
    let sets = cosets.products.len();
    let y = cosets.inputs.y;
    let l0 = value_at(cosets.l0, idx);
    let l_last = value_at(cosets.l_last, idx);
    let l_active = value_at(cosets.l_active_row, idx);
    let first = values_at(cosets.products, 0, idx);
    let last = values_at(cosets.products, sets - 1, idx);
    assert(val(last) == row.z.last());
    let ends = fold_ends(value, &y, &first, &last, &l0, &l_last, Ghost(row));
    let mut value = ends;
    for set_idx in 1..sets
        invariant
            sets == cosets.products@.len(),
            cosets.wf(),
            cosets.has_rows(place.isize as int),
            idx < place.isize,
            r_last < place.isize,
            r_last == rotated(
                idx as int,
                cosets.last_rotation as int,
                place.rot_scale as int,
                place.isize as int,
            ),
            idx == place.first + i,
            row == cosets.row(place, i as int),
            canonical(y),
            canonical(l0),
            val(y) == row.env.y,
            val(l0) == row.l0,
            canonical(value),
            canonical(ends),
            val(value) == link_terms(row, val(ends), set_idx as nat),
    {
        let here = values_at(cosets.products, set_idx, idx);
        let before = values_at(cosets.products, set_idx - 1, r_last);
        assert(val(here) == row.z[set_idx as int]);
        assert(val(before) == row.z_last[set_idx - 1]);
        value = fold_term(&value, &y, &fr_mul(&fr_sub(&here, &before), &l0));
    }
    let ghost linked = val(value);
    let delta_start = fr_mul(&cosets.inputs.beta, &fr_zeta());
    let mut current_delta = fr_mul(&delta_start, beta_term);
    proof {
        lemma_identity_start(row);
        lemma_mul_basics(cosets.chunk_len as int);
        lemma_set_in_use(cosets.columns@.len() as int, cosets.chunk_len as int, 0);
    }
    let ncols = cosets.columns.len();
    let mut s: usize = 0;
    let mut from: usize = 0;
    while s < sets && from < ncols
        invariant
            sets == cosets.products@.len(),
            ncols == cosets.columns@.len(),
            cosets.ready(ev, place, len),
            cosets.products@.len() > 0,
            idx == place.first + i,
            i < len,
            r_next < place.isize,
            r_next == rotated(idx as int, 1, place.rot_scale as int, place.isize as int),
            row == cosets.row(place, i as int),
            canonical(y),
            canonical(l_active),
            val(y) == row.env.y,
            val(l_active) == row.l_active,
            canonical(value),
            canonical(current_delta),
            s <= sets,
            from == s * cosets.chunk_len || from == ncols,
            from <= ncols,
            from < ncols || s == 0 ==> from == s * cosets.chunk_len,
            s <= sets_in_use(row, cosets.chunk_len as int),
            from == ncols ==> s >= sets_in_use(row, cosets.chunk_len as int),
            val(current_delta) == identity_at(row, from as int),
            val(value) == set_terms(row, cosets.chunk_len as int, linked, s as nat),
        decreases sets - s,
    {
        let chunk_len = cosets.chunk_len;
        let to: usize = if chunk_len < ncols - from {
            from + chunk_len
        } else {
            ncols
        };
        proof {
            lemma_mul_is_distributive_add_other_way(chunk_len as int, s as int, 1);
            lemma_set_in_use(ncols as int, chunk_len as int, s as int);
            lemma_set_in_use(ncols as int, chunk_len as int, s + 1);
            assert(to == set_end(row, chunk_len as int, s as int));
        }
        let next = values_at(cosets.products, s, r_next);
        let here = values_at(cosets.products, s, idx);
        assert(val(next) == row.z_next[s as int]);
        assert(val(here) == row.z[s as int]);
        let (left, right, current) = set_sides(
            cosets,
            from,
            to,
            idx,
            &next,
            &here,
            &current_delta,
            Ghost(row),
        );
        value = fold_term(&value, &y, &fr_mul(&fr_sub(&left, &right), &l_active));
        current_delta = current;
        from = to;
        s = s + 1;
    }
    value
}

/// Fold the permutation argument into a tile.
fn permutation_tile(
    ev: &Evaluator,
    cosets: &Cosets,
    tile: &mut Vec<Fr>,
    place: Place,
)
    requires
        cosets.ready(*ev, place, old(tile)@.len() as int),
        canonical_all(old(tile)@),
    ensures
        final(tile)@.len() == old(tile)@.len(),
        canonical_all(final(tile)@),
        forall|i: int| #![trigger final(tile)@[i]]
            0 <= i < old(tile)@.len() ==> val(final(tile)@[i]) == permutation_term(
                cosets.row(place, i),
                cosets.chunk_len as int,
                val(old(tile)@[i]),
            ),
{
    if cosets.products.len() == 0 {
        return;
    }
    let ghost before = tile@;
    let len = tile.len();
    let omega = cosets.extended_omega;
    let mut beta_term = fr_pow(&omega, place.start as u64);
    for i in 0..len
        invariant
            len == tile@.len(),
            tile@.len() == before.len(),
            cosets.ready(*ev, place, len as int),
            cosets.products@.len() > 0,
            omega == cosets.extended_omega,
            canonical_all(tile@),
            canonical(beta_term),
            val(beta_term) == fpow(val(omega), (place.start + i) as nat),
            forall|j: int| i <= j < len ==> tile@[j] == before[j],
            forall|j: int| #![trigger tile@[j]]
                0 <= j < i ==> val(tile@[j]) == permutation_term(
                    cosets.row(place, j),
                    cosets.chunk_len as int,
                    val(before[j]),
                ),
    {
        assert(canonical(tile@[i as int]));
        let previous = tile[i];
        let value = permutation_row(
            cosets,
            &previous,
            &beta_term,
            place,
            i,
            Ghost(*ev),
            Ghost(len as int),
        );
        tile[i] = value;
        proof {
            lemma_point_step(val(omega), (place.start + i) as nat);
        }
        beta_term = fr_mul(&beta_term, &omega);
    }
}

/// Fold a lookup argument into a tile.
fn lookup_tile(
    ev: &Evaluator,
    cosets: &Cosets,
    tile: &mut Vec<Fr>,
    place: Place,
    n: usize,
)
    requires
        cosets.ready(*ev, place, old(tile)@.len() as int),
        n < cosets.lookup_products@.len(),
        canonical_all(old(tile)@),
    ensures
        final(tile)@.len() == old(tile)@.len(),
        canonical_all(final(tile)@),
        forall|i: int| #![trigger final(tile)@[i]]
            0 <= i < old(tile)@.len() ==> val(final(tile)@[i]) == lookup_term(
                *ev,
                cosets.row(place, i),
                n as int,
                val(old(tile)@[i]),
            ),
{
    let ghost before = tile@;
    let len = tile.len();
    let zero = fr_zero();
    let graph = &ev.lookups[n];
    let mut data = graph.instance();
    let y = cosets.inputs.y;
    let beta = cosets.inputs.beta;
    let gamma = cosets.inputs.gamma;
    for i in 0..len
        invariant
            len == tile@.len(),
            tile@.len() == before.len(),
            cosets.ready(*ev, place, len as int),
            n < cosets.lookup_products@.len(),
            *graph == ev.lookups@[n as int],
            y == cosets.inputs.y,
            beta == cosets.inputs.beta,
            gamma == cosets.inputs.gamma,
            canonical(zero),
            val(zero) == 0,
            canonical_all(tile@),
            data.intermediates@.len() == graph.num_intermediates,
            canonical_all(data.intermediates@),
            data.rotations@.len() == graph.rotations@.len(),
            forall|j: int| i <= j < len ==> tile@[j] == before[j],
            forall|j: int| #![trigger tile@[j]]
                0 <= j < i ==> val(tile@[j]) == lookup_term(
                    *ev,
                    cosets.row(place, j),
                    n as int,
                    val(before[j]),
                ),
    {
        let ghost row = cosets.row(place, i as int);
        let idx: usize = place.first + i;
        let table_value = graph_at(graph, &mut data, cosets, &zero, place, i, Ghost(len as int));
        let r_next = get_rotation_idx(idx, 1, place.rot_scale, place.isize);
        let r_prev = get_rotation_idx(idx, -1, place.rot_scale, place.isize);
        let l0 = value_at(cosets.l0, idx);
        let l_last = value_at(cosets.l_last, idx);
        let l_active = value_at(cosets.l_active_row, idx);
        let z = values_at(cosets.lookup_products, n, idx);
        let z_next = values_at(cosets.lookup_products, n, r_next);
        let a = values_at(cosets.lookup_inputs, n, idx);
        let a_prev = values_at(cosets.lookup_inputs, n, r_prev);
        let s = values_at(cosets.lookup_tables, n, idx);
        let a_minus_s = fr_sub(&a, &s);
        assert(canonical(tile@[i as int]));
        let previous = tile[i];
        let v1 = fold_ends(&previous, &y, &z, &z, &l0, &l_last, Ghost(row));
        let product = fr_mul(&fr_mul(&z_next, &fr_add(&a, &beta)), &fr_add(&s, &gamma));
        let step = fr_sub(&product, &fr_mul(&z, &table_value));
        let v2 = fold_term(&v1, &y, &fr_mul(&step, &l_active));
        let v3 = fold_term(&v2, &y, &fr_mul(&a_minus_s, &l0));
        let run = fr_mul(&a_minus_s, &fr_sub(&a, &a_prev));
        tile[i] = fold_term(&v3, &y, &fr_mul(&run, &l_active));
    }
}

/// Fold a shuffle argument into a tile.
fn shuffle_tile(
    ev: &Evaluator,
    cosets: &Cosets,
    tile: &mut Vec<Fr>,
    place: Place,
    n: usize,
)
    requires
        cosets.ready(*ev, place, old(tile)@.len() as int),
        n < cosets.shuffle_products@.len(),
        canonical_all(old(tile)@),
    ensures
        final(tile)@.len() == old(tile)@.len(),
        canonical_all(final(tile)@),
        forall|i: int| #![trigger final(tile)@[i]]
            0 <= i < old(tile)@.len() ==> val(final(tile)@[i]) == shuffle_term(
                *ev,
                cosets.row(place, i),
                n as int,
                val(old(tile)@[i]),
            ),
{
    let ghost before = tile@;
    let len = tile.len();
    let zero = fr_zero();
    let held: usize = ev.shuffles.len();
    assert(2 * n + 1 < held);
    let input_graph = &ev.shuffles[2 * n];
    let shuffle_graph = &ev.shuffles[2 * n + 1];
    let mut input_data = input_graph.instance();
    let mut shuffle_data = shuffle_graph.instance();
    let y = cosets.inputs.y;
    for i in 0..len
        invariant
            len == tile@.len(),
            tile@.len() == before.len(),
            cosets.ready(*ev, place, len as int),
            n < cosets.shuffle_products@.len(),
            *input_graph == ev.shuffles@[2 * n],
            *shuffle_graph == ev.shuffles@[2 * n + 1],
            y == cosets.inputs.y,
            canonical(zero),
            val(zero) == 0,
            canonical_all(tile@),
            input_data.intermediates@.len() == input_graph.num_intermediates,
            canonical_all(input_data.intermediates@),
            input_data.rotations@.len() == input_graph.rotations@.len(),
            shuffle_data.intermediates@.len() == shuffle_graph.num_intermediates,
            canonical_all(shuffle_data.intermediates@),
            shuffle_data.rotations@.len() == shuffle_graph.rotations@.len(),
            forall|j: int| i <= j < len ==> tile@[j] == before[j],
            forall|j: int| #![trigger tile@[j]]
                0 <= j < i ==> val(tile@[j]) == shuffle_term(
                    *ev,
                    cosets.row(place, j),
                    n as int,
                    val(before[j]),
                ),
    {
        let ghost row = cosets.row(place, i as int);
        let idx: usize = place.first + i;
        let input_value = graph_at(
            input_graph,
            &mut input_data,
            cosets,
            &zero,
            place,
            i,
            Ghost(len as int),
        );
        let shuffle_value = graph_at(
            shuffle_graph,
            &mut shuffle_data,
            cosets,
            &zero,
            place,
            i,
            Ghost(len as int),
        );
        let r_next = get_rotation_idx(idx, 1, place.rot_scale, place.isize);
        let l0 = value_at(cosets.l0, idx);
        let l_last = value_at(cosets.l_last, idx);
        let l_active = value_at(cosets.l_active_row, idx);
        let z = values_at(cosets.shuffle_products, n, idx);
        let z_next = values_at(cosets.shuffle_products, n, r_next);
        assert(canonical(tile@[i as int]));
        let previous = tile[i];
        let v1 = fold_ends(&previous, &y, &z, &z, &l0, &l_last, Ghost(row));
        let step = fr_sub(&fr_mul(&z_next, &shuffle_value), &fr_mul(&z, &input_value));
        tile[i] = fold_term(&v1, &y, &fr_mul(&l_active, &step));
    }
}

/// Fold every term of one instance into a tile: the custom gates, the permutation, the
/// lookups and the shuffles.
pub fn evaluate_tile(
    ev: &Evaluator,
    cosets: &Cosets,
    tile: &mut Vec<Fr>,
    place: Place,
)
    requires
        cosets.ready(*ev, place, old(tile)@.len() as int),
        canonical_all(old(tile)@),
    ensures
        final(tile)@.len() == old(tile)@.len(),
        canonical_all(final(tile)@),
        forall|i: int| #![trigger final(tile)@[i]]
            0 <= i < old(tile)@.len() ==> val(final(tile)@[i]) == row_value(
                *ev,
                cosets.row(place, i),
                cosets.chunk_len as int,
                val(old(tile)@[i]),
            ),
{
    let ghost before = tile@;
    let ghost chunk_len = cosets.chunk_len as int;
    gates_tile(ev, cosets, tile, place);
    let ghost gated = tile@;
    permutation_tile(ev, cosets, tile, place);
    let ghost permuted = tile@;
    for n in 0..cosets.lookup_products.len()
        invariant
            cosets.ready(*ev, place, before.len() as int),
            tile@.len() == before.len(),
            permuted.len() == before.len(),
            canonical_all(tile@),
            forall|i: int| #![trigger tile@[i]]
                0 <= i < before.len() ==> val(tile@[i]) == lookup_terms(
                    *ev,
                    cosets.row(place, i),
                    val(permuted[i]),
                    n as nat,
                ),
    {
        let ghost last = tile@;
        lookup_tile(ev, cosets, tile, place, n);
        proof {
            assert forall|i: int| #![trigger tile@[i]]
                0 <= i < before.len() implies val(tile@[i]) == lookup_terms(
                *ev,
                cosets.row(place, i),
                val(permuted[i]),
                (n + 1) as nat,
            ) by {
                assert(val(last[i]) == lookup_terms(
                    *ev,
                    cosets.row(place, i),
                    val(permuted[i]),
                    n as nat,
                ));
            }
        }
    }
    let ghost looked = tile@;
    for n in 0..cosets.shuffle_products.len()
        invariant
            cosets.ready(*ev, place, before.len() as int),
            tile@.len() == before.len(),
            looked.len() == before.len(),
            canonical_all(tile@),
            forall|i: int| #![trigger tile@[i]]
                0 <= i < before.len() ==> val(tile@[i]) == shuffle_terms(
                    *ev,
                    cosets.row(place, i),
                    val(looked[i]),
                    n as nat,
                ),
    {
        let ghost last = tile@;
        shuffle_tile(ev, cosets, tile, place, n);
        proof {
            assert forall|i: int| #![trigger tile@[i]]
                0 <= i < before.len() implies val(tile@[i]) == shuffle_terms(
                *ev,
                cosets.row(place, i),
                val(looked[i]),
                (n + 1) as nat,
            ) by {
                assert(val(last[i]) == shuffle_terms(
                    *ev,
                    cosets.row(place, i),
                    val(looked[i]),
                    n as nat,
                ));
            }
        }
    }
    proof {
        assert forall|i: int| #![trigger tile@[i]]
            0 <= i < before.len() implies val(tile@[i]) == row_value(
            *ev,
            cosets.row(place, i),
            chunk_len,
            val(before[i]),
        ) by {
            let row = cosets.row(place, i);
            assert(val(gated[i]) == gates_term(*ev, row, val(before[i])));
            assert(val(permuted[i]) == permutation_term(row, chunk_len, val(gated[i])));
            assert(val(looked[i]) == lookup_terms(
                *ev,
                row,
                val(permuted[i]),
                row.lookup_z.len(),
            ));
        }
    }
}

} // verus!
