//! The quotient polynomial of a proof, in core, tiled and spilled; and expressions evaluated
//! over Lagrange columns.

use halo2curves::bn256::Fr;
use vstd::arithmetic::power2::*;
use vstd::prelude::*;

use crate::field::{
    canonical, canonical_all, fr_add, fr_delta, fr_mul, fr_neg, fr_repr, fr_to_repr, fr_zero,
    le_int, lemma_le_int_low, val, vals,
};
use crate::halo2::records::{is_repr_of, law_values_fix_records};
use crate::plonk::circuit::{
    columns_wf, expr_value, expr_wf, get_rotation_idx, rotated, rotation_fits, row_of, table_vals,
    Any, ColumnMid, ExpressionBack, Limits, Polynomial, Tables, VarBack,
};
use crate::plonk::evaluate::{
    largest, lemma_largest_nonneg, quotient_in_core, quotient_tiled, tile_rows, LookupCommitted,
    PermutationCommitted, ProvingKey, QuotientArgs, ShuffleCommitted,
};
use crate::plonk::evaluator::Evaluator;
use crate::plonk::graph::{graph_fits, graph_within, horner_value};
use crate::plonk::quotient::{delta, row_value, with_previous};
use crate::plonk::spilled::quotient_spilled;

verus! {

impl Evaluator {
    /// The quotient polynomial over the extended domain, every coset resident.
    pub fn evaluate_h(
        &self,
        pk: &ProvingKey,
        advice_polys: &[&[Polynomial]],
        instance_polys: &[&[Polynomial]],
        challenges: &[Fr],
        y: Fr,
        beta: Fr,
        gamma: Fr,
        theta: Fr,
        lookups: &[Vec<LookupCommitted>],
        shuffles: &[Vec<ShuffleCommitted>],
        permutations: &[PermutationCommitted],
    ) -> (r: Polynomial)
        requires
            ({
                let args = QuotientArgs {
                    pk,
                    advice_polys,
                    instance_polys,
                    challenges,
                    y,
                    beta,
                    gamma,
                    theta,
                    lookups,
                    shuffles,
                    permutations,
                };
                args.wf(*self) && args.rows_fit(*self)
            }),
        ensures
            ({
                let args = QuotientArgs {
                    pk,
                    advice_polys,
                    instance_polys,
                    challenges,
                    y,
                    beta,
                    gamma,
                    theta,
                    lookups,
                    shuffles,
                    permutations,
                };
                is_quotient(r, *self, args)
            }),
    {
        let args = QuotientArgs {
            pk,
            advice_polys,
            instance_polys,
            challenges,
            y,
            beta,
            gamma,
            theta,
            lookups,
            shuffles,
            permutations,
        };
        quotient_in_core(self, &args)
    }

    /// Tiled twin of [`Self::evaluate_h`]: the graphs meet only windows of the cosets, a tile
    /// and a margin of rotations at a time. The polynomial is the same.
    pub fn evaluate_h_ooc(
        &self,
        pk: &ProvingKey,
        advice_polys: &[&[Polynomial]],
        instance_polys: &[&[Polynomial]],
        challenges: &[Fr],
        y: Fr,
        beta: Fr,
        gamma: Fr,
        theta: Fr,
        lookups: &[Vec<LookupCommitted>],
        shuffles: &[Vec<ShuffleCommitted>],
        permutations: &[PermutationCommitted],
        tile: usize,
    ) -> (r: Polynomial)
        requires
            ({
                let args = QuotientArgs {
                    pk,
                    advice_polys,
                    instance_polys,
                    challenges,
                    y,
                    beta,
                    gamma,
                    theta,
                    lookups,
                    shuffles,
                    permutations,
                };
                args.wf(*self) && args.tiles_fit(*self, tile as int)
            }),
        ensures
            ({
                let args = QuotientArgs {
                    pk,
                    advice_polys,
                    instance_polys,
                    challenges,
                    y,
                    beta,
                    gamma,
                    theta,
                    lookups,
                    shuffles,
                    permutations,
                };
                is_quotient(r, *self, args)
            }),
    {
        let args = QuotientArgs {
            pk,
            advice_polys,
            instance_polys,
            challenges,
            y,
            beta,
            gamma,
            theta,
            lookups,
            shuffles,
            permutations,
        };
        quotient_tiled(self, &args, tile)
    }

    /// Spilled twin of [`Self::evaluate_h_ooc`]: the fresh cosets lie in scratch records, from
    /// which a window per tile is read back, and so do the values, a tile at a time. The
    /// polynomial is the same.
    pub fn evaluate_h_ooc_disk(
        &self,
        pk: &ProvingKey,
        advice_polys: &[&[Polynomial]],
        instance_polys: &[&[Polynomial]],
        challenges: &[Fr],
        y: Fr,
        beta: Fr,
        gamma: Fr,
        theta: Fr,
        lookups: &[Vec<LookupCommitted>],
        shuffles: &[Vec<ShuffleCommitted>],
        permutations: &[PermutationCommitted],
        tile: usize,
    ) -> (r: Polynomial)
        requires
            ({
                let args = QuotientArgs {
                    pk,
                    advice_polys,
                    instance_polys,
                    challenges,
                    y,
                    beta,
                    gamma,
                    theta,
                    lookups,
                    shuffles,
                    permutations,
                };
                args.wf(*self) && args.tiles_fit(*self, tile as int)
            }),
        ensures
            ({
                let args = QuotientArgs {
                    pk,
                    advice_polys,
                    instance_polys,
                    challenges,
                    y,
                    beta,
                    gamma,
                    theta,
                    lookups,
                    shuffles,
                    permutations,
                };
                is_quotient(r, *self, args)
            }),
    {
        let args = QuotientArgs {
            pk,
            advice_polys,
            instance_polys,
            challenges,
            y,
            beta,
            gamma,
            theta,
            lookups,
            shuffles,
            permutations,
        };
        quotient_spilled(self, &args, tile)
    }
}

/// The polynomial is the quotient: at every row of the extended domain, the terms of every
/// instance folded into one value.
pub open spec fn is_quotient(p: Polynomial, ev: Evaluator, args: QuotientArgs) -> bool {
    &&& canonical_all(p.values@)
    &&& p.values@.len() == args.pk.vk.domain.size()
    &&& forall|row: int|
        0 <= row < p.values@.len() ==> val(#[trigger] p.values@[row]) == args.quotient(
            ev,
            row,
            args.instances(),
        )
}

/// The quotient does not depend on how it is evaluated: in core, in tiles of any size, or
/// spilled, the values are the same, row by row.
pub proof fn law_quotient_is_one(p: Polynomial, q: Polynomial, ev: Evaluator, args: QuotientArgs)
    requires
        is_quotient(p, ev, args),
        is_quotient(q, ev, args),
    ensures
        vals(p.values@) == vals(q.values@),
{
    assert(vals(p.values@) =~= vals(q.values@));
}

/// The same, byte for byte: written out as canonical records, they are the same bytes.
pub proof fn law_quotient_bytes(
    p: Polynomial,
    q: Polynomial,
    ev: Evaluator,
    args: QuotientArgs,
    a: Seq<u8>,
    b: Seq<u8>,
)
    requires
        is_quotient(p, ev, args),
        is_quotient(q, ev, args),
        is_repr_of(a, p.values@),
        is_repr_of(b, q.values@),
    ensures
        a == b,
{
    law_quotient_is_one(p, q, ev, args);
    law_values_fix_records(a, b, p.values@, q.values@);
}

/// The rolling fingerprint of values: Horner's rule in the field's `DELTA`.
pub open spec fn fingerprint_value(v: Seq<int>) -> int {
    horner_value(0, v, delta(), v.len())
}

/// The lowest eight bytes of the values' rolling fingerprint, lowest first.
pub fn fingerprint(values: &[Fr]) -> (r: Vec<u8>)
    requires
        canonical_all(values@),
    ensures
        r@.len() == 8,
        le_int(r@) == fingerprint_value(vals(values@)) % pow2(64) as int,
{
    let factor = fr_delta();
    let mut acc = fr_zero();
    let ghost v = vals(values@);
    for i in 0..values.len()
        invariant
            canonical_all(values@),
            canonical(factor),
            val(factor) == delta(),
            canonical(acc),
            v == vals(values@),
            val(acc) == horner_value(0, v, delta(), i as nat),
    {
        assert(canonical(values@[i as int]));
        acc = fr_add(&fr_mul(&acc, &factor), &values[i]);
    }
    let repr = fr_to_repr(&acc);
    let mut r: Vec<u8> = Vec::with_capacity(8);
    for i in 0..8usize
        invariant
            repr@.len() == 32,
            r@.len() == i,
            forall|j: int| 0 <= j < i ==> r@[j] == repr@[j],
    {
        r.push(repr[i]);
    }
    proof {
        assert(r@ =~= repr@.take(8));
        assert(repr@ == fr_repr(acc));
        lemma_le_int_low(repr@, 8);
    }
    r
}

/// The tables of a quotient with one instance, without public columns.
pub open spec fn bench_tables(
    pk: ProvingKey,
    advice: Seq<Polynomial>,
    challenges: Seq<Fr>,
    y: Fr,
    beta: Fr,
    gamma: Fr,
    theta: Fr,
) -> Tables {
    Tables {
        fixed: table_vals(pk.fixed_cosets@),
        advice: pk.vk.domain.extend_all(table_vals(advice)),
        instance: Seq::empty(),
        challenges: vals(challenges),
        beta: val(beta),
        gamma: val(gamma),
        theta: val(theta),
        y: val(y),
    }
}

/// The values of a quotient that consists of the custom gates of one instance.
pub open spec fn bench_values(pk: ProvingKey, tables: Tables) -> Seq<int> {
    let domain = pk.vk.domain;
    Seq::new(
        domain.size() as nat,
        |row: int|
            pk.ev.custom_gates.result(tables.env(row_of(row, domain.scale(), domain.size()), 0)),
    )
}

/// The quotient of a key's custom gates over the given advice columns, with no permutation,
/// lookup or shuffle terms, in core or spilled: an eight-byte fingerprint, the same either
/// way.
pub fn ss_bench_quotient(
    pk: &ProvingKey,
    advice: &[Polynomial],
    challenges: &[Fr],
    y: Fr,
    beta: Fr,
    gamma: Fr,
    theta: Fr,
    disk: bool,
    tile: usize,
) -> (r: Vec<u8>)
    requires
        pk.wf(),
        pk.ev.wf(),
        canonical_all(challenges@),
        canonical(y),
        canonical(beta),
        canonical(gamma),
        canonical(theta),
        pk.vk.domain.polys_wf(advice@),
        graph_within(
            pk.ev.custom_gates,
            (Limits {
                fixed: pk.fixed_cosets@.len() as int,
                advice: advice@.len() as int,
                instance: 0,
                challenges: challenges@.len() as int,
                rotation: 0x8000_0000,
            }),
        ),
        !disk ==> graph_fits(
            pk.ev.custom_gates,
            0,
            pk.vk.domain.size(),
            pk.vk.domain.scale(),
        ),
        disk ==> 0 < tile && pk.vk.cs.degree >= 2,
        disk ==> tile_rows(tile as int, pk.vk.domain.size()) + 2 * (largest(
            pk.ev.custom_gates.rotations@,
        ) * pk.vk.domain.scale()) <= i32::MAX,
    ensures
        r@.len() == 8,
        le_int(r@) == fingerprint_value(
            bench_values(*pk, bench_tables(*pk, advice@, challenges@, y, beta, gamma, theta)),
        ) % pow2(64) as int,
{
    let no_instance: Vec<Polynomial> = Vec::new();
    let mut advice_slices: Vec<&[Polynomial]> = Vec::new();
    advice_slices.push(advice);
    let mut instance_slices: Vec<&[Polynomial]> = Vec::new();
    instance_slices.push(no_instance.as_slice());
    let mut lookups: Vec<Vec<LookupCommitted>> = Vec::new();
    lookups.push(Vec::new());
    let mut shuffles: Vec<Vec<ShuffleCommitted>> = Vec::new();
    shuffles.push(Vec::new());
    let mut permutations: Vec<PermutationCommitted> = Vec::new();
    permutations.push(PermutationCommitted { sets: Vec::new() });
    let args = QuotientArgs {
        pk,
        advice_polys: advice_slices.as_slice(),
        instance_polys: instance_slices.as_slice(),
        challenges,
        y,
        beta,
        gamma,
        theta,
        lookups: lookups.as_slice(),
        shuffles: shuffles.as_slice(),
        permutations: permutations.as_slice(),
    };
    let ghost tables = bench_tables(*pk, advice@, challenges@, y, beta, gamma, theta);
    proof {
        lemma_largest_nonneg(pk.ev.custom_gates.rotations@);
        assert(args.instances() == 1);
        assert(args.limits(0, 0x8000_0000) == (Limits {
            fixed: pk.fixed_cosets@.len() as int,
            advice: advice@.len() as int,
            instance: 0,
            challenges: challenges@.len() as int,
            rotation: 0x8000_0000,
        }));
        assert(args.instance_wf(pk.ev, 0));
        assert(!disk ==> args.instance_fits(pk.ev, 0));
        assert(args.max_rotation(pk.ev) == largest(pk.ev.custom_gates.rotations@));
    }
    let h = if disk {
        quotient_spilled(&pk.ev, &args, tile)
    } else {
        quotient_in_core(&pk.ev, &args)
    };
    proof {
        assert(args.cosets(0).tables.instance =~= tables.instance);
        assert(args.cosets(0).tables == tables);
        let domain = pk.vk.domain;
        assert forall|row: int| 0 <= row < domain.size() implies vals(h.values@)[row]
            == bench_values(*pk, tables)[row] by {
            let x = args.row(0, row);
            let env = tables.env(row_of(row, domain.scale(), domain.size()), 0);
            assert(args.quotient(pk.ev, row, 0) == 0);
            assert(args.quotient(pk.ev, row, 1) == row_value(pk.ev, x, args.chunk_len(), 0));
            assert(with_previous(x.env, 0) == env);
            assert(x.z.len() == 0 && x.lookup_z.len() == 0 && x.shuffle_z.len() == 0);
            assert(val(h.values@[row]) == args.quotient(pk.ev, row, 1));
        }
        assert(vals(h.values@) =~= bench_values(*pk, tables));
    }
    fingerprint(h.values.as_slice())
}

/// The tables of Lagrange columns, without values of an argument.
pub open spec fn lagrange_tables(
    fixed: Seq<Polynomial>,
    advice: Seq<Polynomial>,
    instance: Seq<Polynomial>,
    challenges: Seq<Fr>,
) -> Tables {
    Tables {
        fixed: table_vals(fixed),
        advice: table_vals(advice),
        instance: table_vals(instance),
        challenges: vals(challenges),
        beta: 0,
        gamma: 0,
        theta: 0,
        y: 0,
    }
}

/// What a row of Lagrange columns offers to an expression: each column at the row that the
/// rotation leads to, around the domain, and each challenge.
pub proof fn law_lagrange_offers(
    fixed: Seq<Polynomial>,
    advice: Seq<Polynomial>,
    instance: Seq<Polynomial>,
    challenges: Seq<Fr>,
    idx: int,
    rot: int,
    rot_scale: int,
    size: int,
    c: int,
)
    requires
        0 < size,
    ensures
        ({
            let env = lagrange_tables(fixed, advice, instance, challenges).env(
                row_of(idx, rot_scale, size),
                0,
            );
            let row = (idx + rot * rot_scale) % size;
            &&& 0 <= c < fixed.len() && row < fixed[c].values@.len() ==> (env.fixed)(c, rot)
                == val(fixed[c].values@[row])
            &&& 0 <= c < advice.len() && row < advice[c].values@.len() ==> (env.advice)(c, rot)
                == val(advice[c].values@[row])
            &&& 0 <= c < instance.len() && row < instance[c].values@.len() ==> (env.instance)(
                c,
                rot,
            ) == val(instance[c].values@[row])
            &&& 0 <= c < challenges.len() ==> (env.challenges)(c) == val(challenges[c])
        }),
{
    vstd::arithmetic::div_mod::lemma_mod_bound(idx + rot * rot_scale, size);
    let t = lagrange_tables(fixed, advice, instance, challenges);
    if 0 <= c < fixed.len() {
        assert(t.fixed[c] == vals(fixed[c].values@));
    }
    if 0 <= c < advice.len() {
        assert(t.advice[c] == vals(advice[c].values@));
    }
    if 0 <= c < instance.len() {
        assert(t.instance[c] == vals(instance[c].values@));
    }
}

/// A column of a table can be read at a row.
pub open spec fn column_readable(
    c: ColumnMid,
    row: int,
    fixed: Seq<Polynomial>,
    advice: Seq<Polynomial>,
    instance: Seq<Polynomial>,
) -> bool {
    let table = match c.column_type {
        Any::Fixed => fixed,
        Any::Advice => advice,
        Any::Instance => instance,
    };
    c.index < table.len() && row < table[c.index as int].values@.len()
}

/// An expression can be evaluated at a row.
pub open spec fn expr_readable(
    e: ExpressionBack,
    idx: int,
    rot_scale: int,
    isize: int,
    fixed: Seq<Polynomial>,
    advice: Seq<Polynomial>,
    instance: Seq<Polynomial>,
    challenges: Seq<Fr>,
) -> bool
    decreases e,
{
    match e {
        ExpressionBack::Constant(_) => true,
        ExpressionBack::Var(VarBack::Challenge(c)) => c.index < challenges.len(),
        ExpressionBack::Var(VarBack::Query(q)) => {
            &&& rotation_fits(idx, q.rotation.0 as int, rot_scale, isize)
            &&& column_readable(
                q.column,
                rotated(idx, q.rotation.0 as int, rot_scale, isize),
                fixed,
                advice,
                instance,
            )
        },
        ExpressionBack::Negated(a) => expr_readable(
            *a,
            idx,
            rot_scale,
            isize,
            fixed,
            advice,
            instance,
            challenges,
        ),
        ExpressionBack::Sum(a, b) => expr_readable(
            *a,
            idx,
            rot_scale,
            isize,
            fixed,
            advice,
            instance,
            challenges,
        ) && expr_readable(*b, idx, rot_scale, isize, fixed, advice, instance, challenges),
        ExpressionBack::Product(a, b) => expr_readable(
            *a,
            idx,
            rot_scale,
            isize,
            fixed,
            advice,
            instance,
            challenges,
        ) && expr_readable(*b, idx, rot_scale, isize, fixed, advice, instance, challenges),
    }
}

/// An expression at one row.
fn evaluate_at(
    expression: &ExpressionBack,
    idx: usize,
    rot_scale: i32,
    isize: i32,
    fixed: &[Polynomial],
    advice: &[Polynomial],
    instance: &[Polynomial],
    challenges: &[Fr],
) -> (r: Fr)
    requires
        expr_wf(*expression),
        columns_wf(fixed@),
        columns_wf(advice@),
        columns_wf(instance@),
        canonical_all(challenges@),
        0 < isize,
        idx <= i32::MAX,
        expr_readable(
            *expression,
            idx as int,
            rot_scale as int,
            isize as int,
            fixed@,
            advice@,
            instance@,
            challenges@,
        ),
    ensures
        canonical(r),
        val(r) == expr_value(
            *expression,
            lagrange_tables(fixed@, advice@, instance@, challenges@).env(
                row_of(idx as int, rot_scale as int, isize as int),
                0,
            ),
        ),
    decreases *expression,
{
    match expression {
        ExpressionBack::Constant(scalar) => *scalar,
        ExpressionBack::Var(VarBack::Challenge(challenge)) => {
            assert(canonical(challenges@[challenge.index as int]));
            challenges[challenge.index]
        },
        ExpressionBack::Var(VarBack::Query(query)) => {
            let row = get_rotation_idx(idx, query.rotation.0, rot_scale, isize);
            let column = query.column.index;
            match query.column.column_type {
                Any::Fixed => {
                    assert(canonical_all(fixed@[column as int].values@));
                    assert(canonical(fixed@[column as int].values@[row as int]));
                    fixed[column].values[row]
                },
                Any::Advice => {
                    assert(canonical_all(advice@[column as int].values@));
                    assert(canonical(advice@[column as int].values@[row as int]));
                    advice[column].values[row]
                },
                Any::Instance => {
                    assert(canonical_all(instance@[column as int].values@));
                    assert(canonical(instance@[column as int].values@[row as int]));
                    instance[column].values[row]
                },
            }
        },
        ExpressionBack::Negated(a) => {
            let v = evaluate_at(
                a,
                idx,
                rot_scale,
                isize,
                fixed,
                advice,
                instance,
                challenges,
            );
            fr_neg(&v)
        },
        ExpressionBack::Sum(a, b) => {
            let u = evaluate_at(a, idx, rot_scale, isize, fixed, advice, instance, challenges);
            let v = evaluate_at(b, idx, rot_scale, isize, fixed, advice, instance, challenges);
            fr_add(&u, &v)
        },
        ExpressionBack::Product(a, b) => {
            let u = evaluate_at(a, idx, rot_scale, isize, fixed, advice, instance, challenges);
            let v = evaluate_at(b, idx, rot_scale, isize, fixed, advice, instance, challenges);
            fr_mul(&u, &v)
        },
    }
}

/// The values of an expression over Lagrange columns of `size` rows.
pub fn evaluate(
    expression: &ExpressionBack,
    size: usize,
    rot_scale: i32,
    fixed: &[Polynomial],
    advice: &[Polynomial],
    instance: &[Polynomial],
    challenges: &[Fr],
) -> (r: Vec<Fr>)
    requires
        expr_wf(*expression),
        columns_wf(fixed@),
        columns_wf(advice@),
        columns_wf(instance@),
        canonical_all(challenges@),
        size <= i32::MAX,
        forall|idx: int|
            0 <= idx < size ==> #[trigger] expr_readable(
                *expression,
                idx,
                rot_scale as int,
                size as int,
                fixed@,
                advice@,
                instance@,
                challenges@,
            ),
    ensures
        canonical_all(r@),
        r@.len() == size,
        forall|idx: int|
            0 <= idx < size ==> val(#[trigger] r@[idx]) == expr_value(
                *expression,
                lagrange_tables(fixed@, advice@, instance@, challenges@).env(
                    row_of(idx, rot_scale as int, size as int),
                    0,
                ),
            ),
        *expression matches ExpressionBack::Var(VarBack::Query(q)) ==> forall|idx: int|
            0 <= idx < size ==> val(#[trigger] r@[idx]) == val(
                (match q.column.column_type {
                    Any::Fixed => fixed@,
                    Any::Advice => advice@,
                    Any::Instance => instance@,
                })[q.column.index as int].values@[(idx + q.rotation.0 * rot_scale) % (size as int)],
            ),
        *expression matches ExpressionBack::Var(VarBack::Challenge(c)) ==> forall|idx: int|
            0 <= idx < size ==> val(#[trigger] r@[idx]) == val(challenges@[c.index as int]),
        *expression matches ExpressionBack::Constant(c) ==> forall|idx: int|
            0 <= idx < size ==> val(#[trigger] r@[idx]) == val(c),
{
    let mut values: Vec<Fr> = Vec::with_capacity(size);
    for idx in 0..size
        invariant
            expr_wf(*expression),
            columns_wf(fixed@),
            columns_wf(advice@),
            columns_wf(instance@),
            canonical_all(challenges@),
            size <= i32::MAX,
            forall|idx: int|
                0 <= idx < size ==> #[trigger] expr_readable(
                    *expression,
                    idx,
                    rot_scale as int,
                    size as int,
                    fixed@,
                    advice@,
                    instance@,
                    challenges@,
                ),
            values@.len() == idx,
            canonical_all(values@),
            forall|j: int|
                0 <= j < idx ==> val(#[trigger] values@[j]) == expr_value(
                    *expression,
                    lagrange_tables(fixed@, advice@, instance@, challenges@).env(
                        row_of(j, rot_scale as int, size as int),
                        0,
                    ),
                ),
    {
        assert(expr_readable(
            *expression,
            idx as int,
            rot_scale as int,
            size as int,
            fixed@,
            advice@,
            instance@,
            challenges@,
        ));
        let value = evaluate_at(
            expression,
            idx,
            rot_scale,
            size as i32,
            fixed,
            advice,
            instance,
            challenges,
        );
        values.push(value);
    }
    proof {
        let t = lagrange_tables(fixed@, advice@, instance@, challenges@);
        assert forall|idx: int| 0 <= idx < size implies val(#[trigger] values@[idx]) == expr_value(
            *expression,
            t.env(row_of(idx, rot_scale as int, size as int), 0),
        ) && expr_readable(
            *expression,
            idx,
            rot_scale as int,
            size as int,
            fixed@,
            advice@,
            instance@,
            challenges@,
        ) by {}
        if let ExpressionBack::Var(VarBack::Query(q)) = *expression {
            let table = match q.column.column_type {
                Any::Fixed => fixed@,
                Any::Advice => advice@,
                Any::Instance => instance@,
            };
            assert forall|idx: int| 0 <= idx < size implies val(#[trigger] values@[idx]) == val(
                table[q.column.index as int].values@[(idx + q.rotation.0 * rot_scale) % (
                size as int)],
            ) by {
                law_lagrange_offers(
                    fixed@,
                    advice@,
                    instance@,
                    challenges@,
                    idx,
                    q.rotation.0 as int,
                    rot_scale as int,
                    size as int,
                    q.column.index as int,
                );
            }
        }
    }
    values
}

} // verus!
