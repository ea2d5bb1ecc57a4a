//! What the quotient is, straight from what it is computed from: the list of its terms, each
//! written out over values of the polynomials at the row's point, and the sum of the terms by
//! powers of `y`.

use halo2curves::bn256::Fr;
use vstd::arithmetic::div_mod::*;
use vstd::arithmetic::mul::*;
use vstd::arithmetic::power::*;
use vstd::arithmetic::power2::*;
use vstd::prelude::*;

use crate::field::{
    canonical, canonical_all, fadd, fmul, fpow, fsub, lemma_modulus_bounds, modulus, val, vals,
};
use crate::halo2::fft::law_extended_is_evaluation;
use crate::plonk::arith::lemma_congruent_ops;
use crate::plonk::circuit::{cell, elem, expr_value, rotated, row_of, table_vals, Any, Polynomial};
use crate::plonk::evaluate::{
    coset_wf, lookup_inputs, lookup_products, lookup_tables, set_products,
    shuffle_products, EvaluationDomain, ProvingKey, QuotientArgs,
};
use crate::plonk::evaluation::{bench_tables, bench_values, is_quotient};
use crate::plonk::evaluator::{
    expr_values, gate_polys, lookup_value, shuffle_value, ConstraintSystemBack, Evaluator,
};
use crate::plonk::folds::{
    law_gates_graph, law_horner_is_sum, lemma_horner_prefix, lemma_lookup_value,
    lemma_shuffle_value,
};
use crate::plonk::graph::horner_value;
use crate::plonk::quotient::{
    delta, ends_terms, identity_at, left_product, link_terms, lookup_with,
    permutation_term, right_product, set_end, set_terms, sets_in_use, shuffle_with, with_previous,
    zeta, Row,
};
use crate::plonk::system::{
    law_quotient_of_system, lemma_extended_elem, system_lookups, system_quotient, system_shuffles,
    system_value,
};
use crate::plonk::terms::{lemma_exprs_previous, lookup_parts, shuffle_parts};
use crate::sums::{lemma_sum_eq, product, sum};

verus! {

/// The terms of a permutation argument.
pub open spec fn permutation_terms(row: Row, chunk_len: int) -> Seq<int> {
    if row.z.len() == 0 {
        Seq::empty()
    } else {
        let last = row.z.last();
        seq![
            fmul(fsub(1, row.z[0]), row.l0),
            fmul(fsub(fmul(last, last), last), row.l_last),
        ] + link_parts(row) + set_parts(row, chunk_len)
    }
}

/// Its links between sets.
pub open spec fn link_parts(row: Row) -> Seq<int> {
    Seq::new(
        (row.z.len() - 1) as nat,
        |s: int| fmul(fsub(row.z[s + 1], row.z_last[s]), row.l0),
    )
}

/// Its sets in use.
pub open spec fn set_parts(row: Row, chunk_len: int) -> Seq<int> {
    Seq::new(
        sets_in_use(row, chunk_len),
        |s: int|
            fmul(
                fsub(
                    left_product(
                        row,
                        row.z_next[s],
                        s * chunk_len,
                        set_end(row, chunk_len, s),
                    ),
                    right_product(row, row.z[s], s * chunk_len, set_end(row, chunk_len, s)),
                ),
                row.l_active,
            ),
    )
}

/// The terms of the first `n` lookups.
pub open spec fn lookups_terms(cs: ConstraintSystemBack, row: Row, n: nat) -> Seq<int>
    decreases n,
{
    if n == 0 {
        Seq::empty()
    } else {
        lookups_terms(cs, row, (n - 1) as nat) + lookup_parts(
            row,
            n - 1,
            lookup_value(cs.lookups@[n - 1], with_previous(row.env, 0)),
        )
    }
}

/// The terms of the first `n` shuffles.
pub open spec fn shuffles_terms(cs: ConstraintSystemBack, row: Row, n: nat) -> Seq<int>
    decreases n,
{
    if n == 0 {
        Seq::empty()
    } else {
        let env = with_previous(row.env, 0);
        shuffles_terms(cs, row, (n - 1) as nat) + shuffle_parts(
            row,
            n - 1,
            shuffle_value(cs.shuffles@[n - 1].input_expressions@, env),
            shuffle_value(cs.shuffles@[n - 1].shuffle_expressions@, env),
        )
    }
}

/// The terms that an instance adds to the quotient at a row: gates, permutation, lookups,
/// shuffles.
pub open spec fn instance_terms(
    args: QuotientArgs,
    cs: ConstraintSystemBack,
    i: int,
    row: int,
) -> Seq<int> {
    let r = args.row(i, row);
    expr_values(gate_polys(cs.gates@), with_previous(r.env, 0)) + permutation_terms(
        r,
        args.chunk_len(),
    ) + lookups_terms(cs, r, r.lookup_z.len()) + shuffles_terms(cs, r, r.shuffle_z.len())
}

/// Folding in two lists, one after the other, is folding in both at once.
proof fn lemma_horner_concat(start: int, a: Seq<int>, b: Seq<int>, y: int, n: nat)
    requires
        n <= b.len(),
    ensures
        horner_value(start, a + b, y, a.len() + n) == horner_value(
            horner_value(start, a, y, a.len()),
            b,
            y,
            n,
        ),
    decreases n,
{
    if n == 0 {
        lemma_horner_prefix(start, a + b, a, y, a.len());
    } else {
        let k = (n - 1) as nat;
        lemma_horner_concat(start, a, b, y, k);
        assert((a + b)[(a.len() + k) as int] == b[k as int]);
        assert((a.len() + n - 1) as nat == a.len() + k);
    }
}

proof fn lemma_links_fold(row: Row, v: int, sets: nat)
    requires
        0 < sets <= row.z.len(),
    ensures
        link_terms(row, v, sets) == horner_value(
            v,
            link_parts(row),
            row.env.y,
            (sets - 1) as nat,
        ),
    decreases sets,
{
    if sets > 1 {
        lemma_links_fold(row, v, (sets - 1) as nat);
    }
}

proof fn lemma_sets_fold(row: Row, chunk_len: int, v: int, sets: nat)
    requires
        sets <= sets_in_use(row, chunk_len),
    ensures
        set_terms(row, chunk_len, v, sets) == horner_value(
            v,
            set_parts(row, chunk_len),
            row.env.y,
            sets,
        ),
    decreases sets,
{
    if sets > 0 {
        lemma_sets_fold(row, chunk_len, v, (sets - 1) as nat);
    }
}

proof fn lemma_permutation_fold(row: Row, chunk_len: int, v: int)
    ensures
        permutation_term(row, chunk_len, v) == horner_value(
            v,
            permutation_terms(row, chunk_len),
            row.env.y,
            permutation_terms(row, chunk_len).len(),
        ),
{
    let y = row.env.y;
    if row.z.len() > 0 {
        let last = row.z.last();
        let ends = seq![
            fmul(fsub(1, row.z[0]), row.l0),
            fmul(fsub(fmul(last, last), last), row.l_last),
        ];
        let links = link_parts(row);
        let sets = set_parts(row, chunk_len);
        reveal_with_fuel(horner_value, 3);
        let e = ends_terms(row, row.z[0], last, v);
        assert(e == horner_value(v, ends, y, 2));
        lemma_links_fold(row, e, row.z.len());
        let l = link_terms(row, e, row.z.len());
        lemma_sets_fold(row, chunk_len, l, sets.len());
        lemma_horner_concat(v, ends, links, y, links.len());
        lemma_horner_concat(v, ends + links, sets, y, sets.len());
    }
}

proof fn lemma_lookups_fold(cs: ConstraintSystemBack, row: Row, v: int, n: nat)
    ensures
        lookups_terms(cs, row, n).len() == 5 * n,
        system_lookups(cs, row, v, n) == horner_value(
            v,
            lookups_terms(cs, row, n),
            row.env.y,
            5 * n,
        ),
    decreases n,
{
    if n > 0 {
        let k = (n - 1) as nat;
        lemma_lookups_fold(cs, row, v, k);
        let before = lookups_terms(cs, row, k);
        let t = lookup_value(cs.lookups@[n - 1], with_previous(row.env, 0));
        let parts = lookup_parts(row, n - 1, t);
        let w = system_lookups(cs, row, v, k);
        lemma_horner_concat(v, before, parts, row.env.y, 5);
        reveal_with_fuel(horner_value, 6);
        assert(lookup_with(row, n - 1, t, w) == horner_value(w, parts, row.env.y, 5));
    }
}

proof fn lemma_shuffles_fold(cs: ConstraintSystemBack, row: Row, v: int, n: nat)
    ensures
        shuffles_terms(cs, row, n).len() == 3 * n,
        system_shuffles(cs, row, v, n) == horner_value(
            v,
            shuffles_terms(cs, row, n),
            row.env.y,
            3 * n,
        ),
    decreases n,
{
    if n > 0 {
        let k = (n - 1) as nat;
        lemma_shuffles_fold(cs, row, v, k);
        let before = shuffles_terms(cs, row, k);
        let env = with_previous(row.env, 0);
        let a = shuffle_value(cs.shuffles@[n - 1].input_expressions@, env);
        let s = shuffle_value(cs.shuffles@[n - 1].shuffle_expressions@, env);
        let parts = shuffle_parts(row, n - 1, a, s);
        let w = system_shuffles(cs, row, v, k);
        lemma_horner_concat(v, before, parts, row.env.y, 3);
        reveal_with_fuel(horner_value, 4);
        assert(shuffle_with(row, n - 1, a, s, w) == horner_value(w, parts, row.env.y, 3));
    }
}

/// An instance folds in its terms, one after the other.
proof fn lemma_instance_fold(
    args: QuotientArgs,
    cs: ConstraintSystemBack,
    i: int,
    row: int,
    v: int,
)
    ensures
        system_value(cs, args.row(i, row), args.chunk_len(), v) == horner_value(
            v,
            instance_terms(args, cs, i, row),
            val(args.y),
            instance_terms(args, cs, i, row).len(),
        ),
{
    let r = args.row(i, row);
    let y = r.env.y;
    let e = gate_polys(cs.gates@);
    let gates = expr_values(e, with_previous(r.env, 0));
    lemma_exprs_previous(e, r.env, v);
    let v1 = horner_value(v, gates, y, gates.len());
    let perm = permutation_terms(r, args.chunk_len());
    lemma_permutation_fold(r, args.chunk_len(), v1);
    let v2 = permutation_term(r, args.chunk_len(), v1);
    let lookups = lookups_terms(cs, r, r.lookup_z.len());
    lemma_lookups_fold(cs, r, v2, r.lookup_z.len());
    let v3 = system_lookups(cs, r, v2, r.lookup_z.len());
    let shuffles = shuffles_terms(cs, r, r.shuffle_z.len());
    lemma_shuffles_fold(cs, r, v3, r.shuffle_z.len());
    lemma_horner_concat(v, gates, perm, y, perm.len());
    lemma_horner_concat(v, gates + perm, lookups, y, lookups.len());
    lemma_horner_concat(v, gates + perm + lookups, shuffles, y, shuffles.len());
}

/// The terms of the first `n` instances, one after the other.
proof fn lemma_quotient_fold(args: QuotientArgs, cs: ConstraintSystemBack, row: int, n: nat)
    ensures
        ({
            let all = Seq::new(n, |i: int| instance_terms(args, cs, i, row)).flatten_alt();
            system_quotient(args, cs, row, n) == horner_value(0, all, val(args.y), all.len())
        }),
    decreases n,
{
    let lists = Seq::new(n, |i: int| instance_terms(args, cs, i, row));
    if n > 0 {
        let k = (n - 1) as nat;
        lemma_quotient_fold(args, cs, row, k);
        assert(lists.drop_last() =~= Seq::new(k, |i: int| instance_terms(args, cs, i, row)));
        let before = lists.drop_last().flatten_alt();
        let last = instance_terms(args, cs, k as int, row);
        lemma_instance_fold(args, cs, k as int, row, system_quotient(args, cs, row, k));
        lemma_horner_concat(0, before, last, val(args.y), last.len());
    }
}

/// The quotient at a row is the sum of the terms of every instance, one list after the other,
/// each term times its power of `y`; the last term counts once.
pub proof fn law_quotient_is_sum_of_terms(
    p: Polynomial,
    ev: Evaluator,
    args: QuotientArgs,
    cs: ConstraintSystemBack,
    row: int,
)
    requires
        is_quotient(p, ev, args),
        args.wf(ev),
        ev.computes(cs),
        0 <= row < pow2(args.pk.vk.domain.extended_k as nat),
    ensures
        p.values@.len() == pow2(args.pk.vk.domain.extended_k as nat),
        ({
            let all = Seq::new(
                args.instances(),
                |i: int| instance_terms(args, cs, i, row),
            ).flatten();
            canonical(p.values@[row]) && val(p.values@[row]) == sum(
                |j: int| all[j] * pow(val(args.y), (all.len() - 1 - j) as nat),
                all.len(),
            ) % modulus()
        }),
{
    let n = args.instances();
    let lists = Seq::new(n, |i: int| instance_terms(args, cs, i, row));
    let all = lists.flatten();
    lists.lemma_flatten_and_flatten_alt_are_equivalent();
    law_quotient_of_system(args, ev, cs, row, n);
    lemma_quotient_fold(args, cs, row, n);
    lemma_modulus_bounds();
    law_horner_is_sum(0, all, val(args.y), all.len());
    lemma_mul_basics(pow(val(args.y), all.len()));
    assert(canonical(p.values@[row]));
}

/// The coset's shift is a cube root of unity.
pub proof fn lemma_zeta_cubed()
    ensures
        fpow(zeta(), 3) == 1,
{
    reveal(fpow);
    reveal(modulus);
    reveal_with_fuel(pow, 4);
    let z = zeta();
    assert(pow(z, 3) == z * (z * (z * 1)));
    assert((z * (z * (z * 1))) % modulus() == 1) by (nonlinear_arith)
        requires
            z == 0x30644e72e131a029048b6e193fd84104cc37a73fec2bc5e9b8ca0b2d36636f23int,
            modulus()
                == 0x30644e72e131a029b85045b68181585d2833e84879b9709143e1f593f0000001int,
    ;
}

/// The extended values of a polynomial are its values at the points of the coset, one for each
/// row of the extended domain.
pub proof fn law_extended_polynomial(domain: EvaluationDomain, p: Polynomial, row: int)
    requires
        domain.wf(),
        domain.poly_wf(p),
        0 <= row < pow2(domain.extended_k as nat),
    ensures
        domain.extend(vals(p.values@)).len() == pow2(domain.extended_k as nat),
        domain.extend(vals(p.values@))[row] == sum(
            |j: int|
                val(p.values@[j]) * pow(
                    zeta() * pow(val(domain.extended_omega), row as nat),
                    j as nat,
                ),
            p.values@.len(),
        ) % modulus(),
{
    let w = val(domain.extended_omega);
    let v = vals(p.values@);
    lemma_zeta_cubed();
    if domain.k < domain.extended_k {
        lemma_pow2_strictly_increases(domain.k as nat, domain.extended_k as nat);
    }
    law_extended_is_evaluation(v, zeta(), w, domain.size() as nat, row);
    lemma_sum_eq(
        |j: int| v[j] * pow(zeta() * pow(w, row as nat), j as nat),
        |j: int|
            val(p.values@[j]) * pow(
                zeta() * pow(val(domain.extended_omega), row as nat),
                j as nat,
            ),
        v.len(),
    );
}

/// The value of a polynomial at a point of the coset.
spec fn value_at(args: QuotientArgs, p: Polynomial, r: int) -> int {
    sum(
        |j: int|
            val(p.values@[j]) * pow(
                zeta() * pow(val(args.pk.vk.domain.extended_omega), r as nat),
                j as nat,
            ),
        p.values@.len(),
    ) % modulus()
}

/// Several polynomials, extended, at a rotated row.
proof fn lemma_extended_at(
    args: QuotientArgs,
    polys: Seq<Polynomial>,
    row: int,
    rot: int,
)
    requires
        args.pk.vk.domain.wf(),
        args.pk.vk.domain.polys_wf(polys),
    ensures
        ({
            let domain = args.pk.vk.domain;
            let size = pow2(domain.extended_k as nat) as int;
            let scale = pow2((domain.extended_k - domain.k) as nat) as int;
            let r = (row + rot * scale) % size;
            let e = domain.extend_all(table_vals(polys));
            &&& 0 <= r < size
            &&& rotated(row, rot, domain.scale(), domain.size()) == r
            &&& e.len() == polys.len()
            &&& forall|s: int|
                0 <= s < polys.len() ==> (#[trigger] e[s]).len() == size && e[s][r] == value_at(
                    args,
                    polys[s],
                    r,
                )
        }),
{
    let domain = args.pk.vk.domain;
    let size = pow2(domain.extended_k as nat) as int;
    let scale = pow2((domain.extended_k - domain.k) as nat) as int;
    let r = (row + rot * scale) % size;
    lemma_pow2_pos(domain.extended_k as nat);
    lemma_mod_bound(row + rot * scale, size);
    let e = domain.extend_all(table_vals(polys));
    assert forall|s: int| 0 <= s < polys.len() implies (#[trigger] e[s]).len() == size
        && e[s][r] == value_at(args, polys[s], r) by {
        assert(domain.poly_wf(polys[s]));
        law_extended_polynomial(domain, polys[s], r);
    }
}

/// What a row of the extended domain offers to the expressions of an instance: fixed columns as
/// the key holds them, advice and public columns as the values of their polynomials, each at the
/// row that the rotation leads to, around the domain.
pub proof fn law_row_offers(args: QuotientArgs, ev: Evaluator, i: int, row: int, c: int, rot: int)
    requires
        args.wf(ev),
        0 <= i < args.instances(),
        0 <= row < pow2(args.pk.vk.domain.extended_k as nat),
    ensures
        ({
            let m = modulus();
            let domain = args.pk.vk.domain;
            let size = pow2(domain.extended_k as nat) as int;
            let scale = pow2((domain.extended_k - domain.k) as nat) as int;
            let at = |p: Polynomial, r: int|
                sum(
                    |j: int|
                        val(p.values@[j]) * pow(
                            zeta() * pow(val(domain.extended_omega), r as nat),
                            j as nat,
                        ),
                    p.values@.len(),
                ) % m;
            let r = (row + rot * scale) % size;
            let env = args.row(i, row).env;
            &&& 0 <= c < args.pk.fixed_cosets@.len() ==> (env.fixed)(c, rot) == val(
                args.pk.fixed_cosets@[c].values@[r],
            )
            &&& 0 <= c < args.advice_polys@[i]@.len() ==> (env.advice)(c, rot) == at(
                args.advice_polys@[i]@[c],
                r,
            )
            &&& 0 <= c < args.instance_polys@[i]@.len() ==> (env.instance)(c, rot) == at(
                args.instance_polys@[i]@[c],
                r,
            )
            &&& 0 <= c < args.challenges@.len() ==> (env.challenges)(c) == val(args.challenges@[c])
            &&& env.beta == val(args.beta)
            &&& env.gamma == val(args.gamma)
            &&& env.theta == val(args.theta)
            &&& env.y == val(args.y)
        }),
{
    let domain = args.pk.vk.domain;
    let size = pow2(domain.extended_k as nat) as int;
    assert(args.instance_wf(ev, i));
    lemma_extended_at(args, args.advice_polys@[i]@, row, rot);
    lemma_extended_at(args, args.instance_polys@[i]@, row, rot);
    let env = args.row(i, row).env;
    let r = rotated(row, rot, domain.scale(), domain.size());
    let t = args.cosets(i).tables;
    if 0 <= c < args.pk.fixed_cosets@.len() {
        assert(coset_wf(args.pk.fixed_cosets@[c], size));
        assert(t.fixed[c].len() == size);
        assert((env.fixed)(c, rot) == t.fixed[c][r]);
    }
    if 0 <= c < args.advice_polys@[i]@.len() {
        assert(t.advice[c].len() == size);
        assert((env.advice)(c, rot) == t.advice[c][r]);
    }
    if 0 <= c < args.instance_polys@[i]@.len() {
        assert(t.instance[c].len() == size);
        assert((env.instance)(c, rot) == t.instance[c][r]);
    }
    if 0 <= c < args.challenges@.len() {
        assert((env.challenges)(c) == vals(args.challenges@)[c]);
    }
}

/// An instance has a term for each gate; for a permutation with sets, two for the ends, one for
/// each set after the first, and one for each set that has columns, `degree - 2` columns to a
/// set; five for each lookup; three for each shuffle.
pub proof fn law_number_of_terms(
    args: QuotientArgs,
    ev: Evaluator,
    cs: ConstraintSystemBack,
    i: int,
    row: int,
)
    requires
        args.wf(ev),
        ev.computes(cs),
        0 <= i < args.instances(),
        0 <= row < pow2(args.pk.vk.domain.extended_k as nat),
    ensures
        ({
            let gates = cs.gates@.len();
            let sets = args.permutations@[i].sets@.len();
            let width = args.pk.vk.cs.degree - 2;
            let columns = args.pk.vk.cs.permutation@.len();
            let chunks = (columns + width - 1) / width;
            let in_use = if sets < chunks {
                sets as int
            } else {
                chunks
            };
            let permutation = if sets == 0 {
                0
            } else {
                2 + (sets - 1) + in_use
            };
            let lookups = args.lookups@[i]@.len();
            let shuffles = args.shuffles@[i]@.len();
            instance_terms(args, cs, i, row).len() == gates + permutation + 5 * lookups + 3
                * shuffles
        }),
{
    let r = args.row(i, row);
    assert(args.instance_wf(ev, i));
    lemma_lookups_fold(cs, r, 0, r.lookup_z.len());
    lemma_shuffles_fold(cs, r, 0, r.shuffle_z.len());
    lemma_in_use(args, i, row);
}

/// The number of sets that have columns.
proof fn lemma_in_use(args: QuotientArgs, i: int, row: int)
    requires
        args.permutations@[i].sets@.len() > 0 ==> args.pk.vk.cs.degree > 2,
    ensures
        args.row(i, row).z.len() == args.permutations@[i].sets@.len(),
        args.row(i, row).columns.len() == args.pk.vk.cs.permutation@.len(),
        args.permutations@[i].sets@.len() > 0 ==> args.chunk_len() == args.pk.vk.cs.degree - 2
            && sets_in_use(args.row(i, row), args.chunk_len()) == ({
            let width = args.pk.vk.cs.degree - 2;
            let chunks = (args.pk.vk.cs.permutation@.len() + width - 1) / width;
            if args.permutations@[i].sets@.len() < chunks {
                args.permutations@[i].sets@.len() as int
            } else {
                chunks
            }
        }),
{
    let width = args.pk.vk.cs.degree - 2;
    if args.permutations@[i].sets@.len() > 0 {
        lemma_div_pos_is_pos(args.pk.vk.cs.permutation@.len() + width - 1, width);
    }
}

/// The first terms of an instance are the values of the gates, each its own.
pub proof fn law_gate_terms(
    args: QuotientArgs,
    ev: Evaluator,
    cs: ConstraintSystemBack,
    i: int,
    row: int,
    a: int,
)
    requires
        args.wf(ev),
        ev.computes(cs),
        0 <= i < args.instances(),
        0 <= row < pow2(args.pk.vk.domain.extended_k as nat),
        0 <= a < cs.gates@.len(),
    ensures
        instance_terms(args, cs, i, row)[a] == expr_value(
            cs.gates@[a].poly,
            args.row(i, row).env,
        ),
{
    let r = args.row(i, row);
    assert(with_previous(r.env, 0) == r.env);
}

/// Every column of the permutation lies in exactly one set, as long as there are sets enough.
pub proof fn law_columns_have_one_set(columns: nat, degree: int, j: int)
    requires
        degree > 2,
        0 <= j < columns,
    ensures
        ({
            let width = degree - 2;
            let chunks = (columns + width - 1) / width;
            let s = j / width;
            &&& 0 <= s < chunks
            &&& s * width <= j < (s + 1) * width
            &&& forall|t: int| t * width <= j < #[trigger] ((t + 1) * width) ==> t == s
        }),
{
    let width = degree - 2;
    let s = j / width;
    let a = columns + width - 1;
    let chunks = a / width;
    lemma_fundamental_div_mod(j, width);
    lemma_mod_bound(j, width);
    lemma_fundamental_div_mod(a, width);
    lemma_mod_bound(a, width);
    lemma_mul_is_commutative(s, width);
    lemma_mul_is_distributive_add_other_way(width, s, 1);
    lemma_div_pos_is_pos(j, width);
    assert(s < chunks) by (nonlinear_arith)
        requires
            s * width <= j,
            j < columns,
            a == columns + width - 1,
            a == width * chunks + a % width,
            a % width < width,
            width > 0,
    ;
    assert forall|t: int| t * width <= j < #[trigger] ((t + 1) * width) implies t == s by {
        assert(t == s) by (nonlinear_arith)
            requires
                t * width <= j < (t + 1) * width,
                s * width <= j < (s + 1) * width,
                width > 0,
        ;
    }
}

proof fn lemma_left(row: Row, start: int, from: int, to: int, f: spec_fn(int) -> int)
    requires
        from <= to,
        forall|j: int|
            from <= j < to ==> #[trigger] f(j) == row.columns[j] + row.env.beta * row.sigmas[j]
                + row.env.gamma,
    ensures
        left_product(row, start, from, to) % modulus() == (start * product(f, from, to))
            % modulus(),
    decreases to - from,
{
    lemma_modulus_bounds();
    if from < to {
        lemma_left(row, start, from, to - 1, f);
        let j = to - 1;
        let before = left_product(row, start, from, j);
        let p = product(f, from, j);
        let b = row.env.beta * row.sigmas[j];
        lemma_congruent_ops(row.env.beta, row.sigmas[j], row.env.beta, row.sigmas[j]);
        let bs = fmul(row.env.beta, row.sigmas[j]);
        lemma_congruent_ops(row.columns[j], bs, row.columns[j], b);
        let sum = fadd(row.columns[j], bs);
        lemma_congruent_ops(sum, row.env.gamma, row.columns[j] + b, row.env.gamma);
        lemma_congruent_ops(before, fadd(sum, row.env.gamma), start * p, f(j));
        lemma_mul_is_associative(start, p, f(j));
    } else {
        lemma_mul_basics(start);
    }
}

proof fn lemma_right(row: Row, start: int, from: int, to: int, f: spec_fn(int) -> int)
    requires
        0 <= from <= to,
        forall|j: int|
            from <= j < to ==> (#[trigger] f(j)) % modulus() == (row.columns[j] + identity_at(
                row,
                j,
            ) + row.env.gamma) % modulus(),
    ensures
        right_product(row, start, from, to) % modulus() == (start * product(f, from, to))
            % modulus(),
    decreases to - from,
{
    lemma_modulus_bounds();
    if from < to {
        lemma_right(row, start, from, to - 1, f);
        let j = to - 1;
        let before = right_product(row, start, from, j);
        let p = product(f, from, j);
        let x = identity_at(row, j);
        lemma_congruent_ops(row.columns[j], x, row.columns[j], x);
        let sum = fadd(row.columns[j], x);
        lemma_congruent_ops(sum, row.env.gamma, row.columns[j] + x, row.env.gamma);
        lemma_mod_twice(f(j), modulus());
        lemma_congruent_ops(before, fadd(sum, row.env.gamma), start * p, f(j));
        lemma_mul_is_associative(start, p, f(j));
    } else {
        lemma_mul_basics(start);
    }
}

/// The identity permutation's value: `beta * zeta * omega^row * delta^j`.
proof fn lemma_identity(row: Row, w: int, e: nat, j: int)
    requires
        0 <= j,
        row.x == fpow(w, e),
    ensures
        identity_at(row, j) % modulus() == (row.env.beta * (zeta() * pow(w, e)) * pow(
            pow(7, pow2(28)),
            j as nat,
        )) % modulus(),
{
    let m = modulus();
    let beta = row.env.beta;
    lemma_modulus_bounds();
    reveal(fpow);
    let d = pow(7, pow2(28));
    lemma_pow_mod_noop(d, j as nat, m);
    assert(fpow(delta(), j as nat) % m == pow(d, j as nat) % m) by {
        lemma_mod_twice(pow(delta(), j as nat), m);
    }
    lemma_mod_twice(pow(w, e), m);
    lemma_congruent_ops(beta, zeta(), beta, zeta());
    lemma_congruent_ops(fmul(beta, zeta()), row.x, beta * zeta(), pow(w, e));
    lemma_congruent_ops(
        fmul(fmul(beta, zeta()), row.x),
        fpow(delta(), j as nat),
        (beta * zeta()) * pow(w, e),
        pow(d, j as nat),
    );
    lemma_mul_is_associative(beta, zeta(), pow(w, e));
}

/// What a row holds of the permutation argument.
proof fn lemma_row_of_permutation(args: QuotientArgs, ev: Evaluator, i: int, row: int)
    requires
        args.wf(ev),
        0 <= i < args.instances(),
        0 <= row < pow2(args.pk.vk.domain.extended_k as nat),
        args.permutations@[i].sets@.len() > 0,
    ensures
        ({
            let domain = args.pk.vk.domain;
            let size = pow2(domain.extended_k as nat) as int;
            let scale = pow2((domain.extended_k - domain.k) as nat) as int;
            let r = args.row(i, row);
            let sets = args.permutations@[i].sets@;
            let next = (row + scale) % size;
            let last = (row - (args.pk.vk.cs.blinding_factors + 1) * scale) % size;
            &&& r.l0 == val(args.pk.l0.values@[row])
            &&& r.l_last == val(args.pk.l_last.values@[row])
            &&& r.l_active == val(args.pk.l_active_row.values@[row])
            &&& r.x == fpow(val(domain.extended_omega), row as nat)
            &&& r.env.beta == val(args.beta)
            &&& r.env.gamma == val(args.gamma)
            &&& forall|s: int| #![trigger sets[s]]
                0 <= s < sets.len() ==> r.z[s] == value_at(
                    args,
                    sets[s].permutation_product_poly,
                    row,
                ) && r.z_next[s] == value_at(args, sets[s].permutation_product_poly, next)
                    && r.z_last[s] == value_at(args, sets[s].permutation_product_poly, last)
            &&& forall|j: int| #![trigger args.pk.vk.cs.permutation@[j]]
                0 <= j < args.pk.vk.cs.permutation@.len() ==> {
                    let c = args.pk.vk.cs.permutation@[j];
                    &&& r.sigmas[j] == val(args.pk.permutation_cosets@[j].values@[row])
                    &&& r.columns[j] == (match c.column_type {
                        Any::Fixed => val(args.pk.fixed_cosets@[c.index as int].values@[row]),
                        Any::Advice => value_at(args, args.advice_polys@[i]@[c.index as int], row),
                        Any::Instance => value_at(
                            args,
                            args.instance_polys@[i]@[c.index as int],
                            row,
                        ),
                    })
                }
        }),
{
    let domain = args.pk.vk.domain;
    let size = pow2(domain.extended_k as nat) as int;
    let scale = pow2((domain.extended_k - domain.k) as nat) as int;
    let sets = args.permutations@[i].sets@;
    let polys = Seq::new(sets.len(), |s: int| sets[s].permutation_product_poly);
    assert(args.instance_wf(ev, i));
    assert(table_vals(polys) =~= set_products(sets));
    assert(domain.polys_wf(polys)) by {
        assert forall|j: int| 0 <= j < polys.len() implies domain.poly_wf(
            #[trigger] polys[j],
        ) by {
            assert(domain.poly_wf(sets[j].permutation_product_poly));
        }
    }
    let b = -(args.pk.vk.cs.blinding_factors + 1);
    lemma_extended_at(args, polys, row, 0);
    lemma_extended_at(args, polys, row, 1);
    lemma_extended_at(args, polys, row, b);
    lemma_extended_at(args, args.advice_polys@[i]@, row, 0);
    lemma_extended_at(args, args.instance_polys@[i]@, row, 0);
    lemma_mul_basics(scale);
    lemma_mul_unary_negation(args.pk.vk.cs.blinding_factors + 1, scale);
    lemma_small_mod(row as nat, size as nat);
    let r = args.row(i, row);
    let e = domain.extend_all(set_products(sets));
    assert forall|s: int| #![trigger sets[s]] 0 <= s < sets.len() implies r.z[s] == value_at(
        args,
        sets[s].permutation_product_poly,
        row,
    ) && r.z_next[s] == value_at(args, sets[s].permutation_product_poly, (row + scale) % size)
        && r.z_last[s] == value_at(
        args,
        sets[s].permutation_product_poly,
        (row + b * scale) % size,
    ) by {
        assert(polys[s] == sets[s].permutation_product_poly);
        assert(e[s].len() == size);
    }
    assert forall|j: int| #![trigger args.pk.vk.cs.permutation@[j]]
        0 <= j < args.pk.vk.cs.permutation@.len() implies {
        let c = args.pk.vk.cs.permutation@[j];
        &&& r.sigmas[j] == val(args.pk.permutation_cosets@[j].values@[row])
        &&& r.columns[j] == (match c.column_type {
            Any::Fixed => val(args.pk.fixed_cosets@[c.index as int].values@[row]),
            Any::Advice => value_at(args, args.advice_polys@[i]@[c.index as int], row),
            Any::Instance => value_at(args, args.instance_polys@[i]@[c.index as int], row),
        })
    } by {
        let c = args.pk.vk.cs.permutation@[j];
        let at = c.index as int;
        assert(args.limits(i, 0x8000_0000).allows_column(c));
        assert(coset_wf(args.pk.permutation_cosets@[j], size));
        let t = args.cosets(i).tables;
        match c.column_type {
            Any::Fixed => {
                assert(coset_wf(args.pk.fixed_cosets@[at], size));
                assert(cell(t.fixed, at, row) == val(args.pk.fixed_cosets@[at].values@[row]));
            },
            Any::Advice => {
                assert(t.advice[at].len() == size);
            },
            Any::Instance => {
                assert(t.instance[at].len() == size);
            },
        }
    }
}

/// The terms of a permutation argument. Its first product starts at one and its last ends at
/// zero or one; each product after the first, set `s`, starts where the one before ends, at the
/// last row in use; and each set that has columns carries its product to the next row by the
/// factors of its own columns, `degree - 2` columns to a set.
#[verifier::spinoff_prover]
#[verifier::rlimit(50)]
pub proof fn law_permutation_terms(
    args: QuotientArgs,
    ev: Evaluator,
    cs: ConstraintSystemBack,
    i: int,
    row: int,
    s: int,
)
    requires
        args.wf(ev),
        ev.computes(cs),
        0 <= i < args.instances(),
        0 <= row < pow2(args.pk.vk.domain.extended_k as nat),
        args.permutations@[i].sets@.len() > 0,
        0 <= s < args.permutations@[i].sets@.len(),
    ensures
        ({
            let m = modulus();
            let domain = args.pk.vk.domain;
            let size = pow2(domain.extended_k as nat) as int;
            let scale = pow2((domain.extended_k - domain.k) as nat) as int;
            let at = |p: Polynomial, r: int|
                sum(
                    |j: int|
                        val(p.values@[j]) * pow(
                            zeta() * pow(val(domain.extended_omega), r as nat),
                            j as nat,
                        ),
                    p.values@.len(),
                ) % m;
            let terms = instance_terms(args, cs, i, row);
            let gates = cs.gates@.len() as int;
            let sets = args.permutations@[i].sets@;
            let count = sets.len() as int;
            let z = |n: int, r: int| at(sets[n].permutation_product_poly, r);
            let last = (row - (args.pk.vk.cs.blinding_factors + 1) * scale) % size;
            let next = (row + scale) % size;
            let l0 = val(args.pk.l0.values@[row]);
            let l_last = val(args.pk.l_last.values@[row]);
            let l_active = val(args.pk.l_active_row.values@[row]);
            let columns = args.pk.vk.cs.permutation@;
            let column = |j: int|
                match columns[j].column_type {
                    Any::Fixed => val(args.pk.fixed_cosets@[columns[j].index as int].values@[row]),
                    Any::Advice => at(args.advice_polys@[i]@[columns[j].index as int], row),
                    Any::Instance => at(args.instance_polys@[i]@[columns[j].index as int], row),
                };
            let sigma = |j: int| val(args.pk.permutation_cosets@[j].values@[row]);
            let point = zeta() * pow(val(domain.extended_omega), row as nat);
            let width = args.pk.vk.cs.degree - 2;
            let from = s * width;
            let to = if (s + 1) * width < columns.len() {
                (s + 1) * width
            } else {
                columns.len() as int
            };
            &&& terms[gates] == ((1 - z(0, row)) * l0) % m
            &&& terms[gates + 1] == ((z(count - 1, row) * z(count - 1, row) - z(count - 1, row))
                * l_last) % m
            &&& s > 0 ==> terms[gates + 1 + s] == ((z(s, row) - z(s - 1, last)) * l0) % m
            &&& from < columns.len() ==> terms[gates + 1 + count + s] == ((z(s, next) * product(
                |j: int| column(j) + val(args.beta) * sigma(j) + val(args.gamma),
                from,
                to,
            ) - z(s, row) * product(
                |j: int|
                    column(j) + val(args.beta) * point * pow(pow(7, pow2(28)), j as nat) + val(
                        args.gamma,
                    ),
                from,
                to,
            )) * l_active) % m
        }),
{
    let m = modulus();
    let domain = args.pk.vk.domain;
    let size = pow2(domain.extended_k as nat) as int;
    let scale = pow2((domain.extended_k - domain.k) as nat) as int;
    let at = |p: Polynomial, r: int|
        sum(
            |j: int|
                val(p.values@[j]) * pow(
                    zeta() * pow(val(domain.extended_omega), r as nat),
                    j as nat,
                ),
            p.values@.len(),
        ) % m;
    let sets = args.permutations@[i].sets@;
    let count = sets.len() as int;
    let r = args.row(i, row);
    let gates = expr_values(gate_polys(cs.gates@), with_previous(r.env, 0));
    let width = args.pk.vk.cs.degree - 2;
    let columns = args.pk.vk.cs.permutation@;
    assert(args.instance_wf(ev, i));
    lemma_modulus_bounds();
    lemma_in_use(args, i, row);
    lemma_row_of_permutation(args, ev, i, row);
    assert forall|p: Polynomial, q: int| #[trigger] at(p, q) == value_at(args, p, q) by {}
    let terms = instance_terms(args, cs, i, row);
    let parts = permutation_terms(r, args.chunk_len());
    assert forall|a: int| 0 <= a < parts.len() implies terms[gates.len() + a]
        == #[trigger] parts[a] by {}
    let z0 = r.z[0];
    let zl = r.z[count - 1];
    lemma_congruent_ops(1, z0, 1, z0);
    lemma_congruent_ops(fsub(1, z0), r.l0, 1 - z0, r.l0);
    lemma_congruent_ops(zl, zl, zl, zl);
    lemma_congruent_ops(fmul(zl, zl), zl, zl * zl, zl);
    lemma_congruent_ops(fsub(fmul(zl, zl), zl), r.l_last, zl * zl - zl, r.l_last);
    if s > 0 {
        let a = r.z[s];
        let b = r.z_last[s - 1];
        lemma_congruent_ops(a, b, a, b);
        lemma_congruent_ops(fsub(a, b), r.l0, a - b, r.l0);
        assert(parts[1 + s] == link_parts(r)[s - 1]);
    }
    let from = s * width;
    if from < columns.len() {
        let to = if (s + 1) * width < columns.len() {
            (s + 1) * width
        } else {
            columns.len() as int
        };
        lemma_mul_nonnegative(s, width);
        lemma_mul_is_distributive_add_other_way(width, s, 1);
        law_columns_have_one_set(columns.len(), args.pk.vk.cs.degree as int, from);
        assert(s == from / width);
        let column = |j: int|
            match columns[j].column_type {
                Any::Fixed => val(args.pk.fixed_cosets@[columns[j].index as int].values@[row]),
                Any::Advice => at(args.advice_polys@[i]@[columns[j].index as int], row),
                Any::Instance => at(args.instance_polys@[i]@[columns[j].index as int], row),
            };
        let sigma = |j: int| val(args.pk.permutation_cosets@[j].values@[row]);
        let point = zeta() * pow(val(domain.extended_omega), row as nat);
        let f = |j: int| column(j) + val(args.beta) * sigma(j) + val(args.gamma);
        let g = |j: int|
            column(j) + val(args.beta) * point * pow(pow(7, pow2(28)), j as nat) + val(
                args.gamma,
            );
        assert forall|j: int| from <= j < to implies r.columns[j] == column(j) && r.sigmas[j]
            == #[trigger] sigma(j) by {
            let c = args.pk.vk.cs.permutation@[j];
            assert(columns[j] == c);
        }
        assert forall|j: int| from <= j < to implies #[trigger] f(j) == r.columns[j] + r.env.beta
            * r.sigmas[j] + r.env.gamma by {
            assert(r.sigmas[j] == sigma(j));
        }
        assert forall|j: int| from <= j < to implies (#[trigger] g(j)) % m == (r.columns[j]
            + identity_at(r, j) + r.env.gamma) % m by {
            assert(r.sigmas[j] == sigma(j));
            lemma_identity(r, val(domain.extended_omega), row as nat, j);
            let x = identity_at(r, j);
            let y = val(args.beta) * point * pow(pow(7, pow2(28)), j as nat);
            let rest = column(j) + val(args.gamma);
            lemma_add_mod_noop(x, rest, m);
            lemma_add_mod_noop(y, rest, m);
        }
        let a = r.z_next[s];
        let b = r.z[s];
        lemma_left(r, a, from, to, f);
        lemma_right(r, b, from, to, g);
        let left = left_product(r, a, from, to);
        let right = right_product(r, b, from, to);
        let pf = product(f, from, to);
        let pg = product(g, from, to);
        lemma_congruent_ops(left, right, a * pf, b * pg);
        lemma_congruent_ops(fsub(left, right), r.l_active, a * pf - b * pg, r.l_active);
        assert(parts[1 + count + s] == set_parts(r, args.chunk_len())[s]);
    }
}

/// Where the terms of lookup `n` stand among those of the lookups.
proof fn lemma_lookup_place(cs: ConstraintSystemBack, row: Row, n: int, count: nat)
    requires
        0 <= n < count,
    ensures
        lookups_terms(cs, row, count).len() == 5 * count,
        forall|k: int|
            0 <= k < 5 ==> lookups_terms(cs, row, count)[5 * n + k] == #[trigger] lookup_parts(
                row,
                n,
                lookup_value(cs.lookups@[n], with_previous(row.env, 0)),
            )[k],
    decreases count,
{
    let last = (count - 1) as nat;
    lemma_lookups_fold(cs, row, 0, count);
    lemma_lookups_fold(cs, row, 0, last);
    if n < last {
        lemma_lookup_place(cs, row, n, last);
    }
    let v = lookup_value(cs.lookups@[n], with_previous(row.env, 0));
    assert forall|k: int| 0 <= k < 5 implies lookups_terms(cs, row, count)[5 * n + k]
        == #[trigger] lookup_parts(row, n, v)[k] by {}
}

/// Where the terms of shuffle `n` stand among those of the shuffles.
proof fn lemma_shuffle_place(cs: ConstraintSystemBack, row: Row, n: int, count: nat)
    requires
        0 <= n < count,
    ensures
        shuffles_terms(cs, row, count).len() == 3 * count,
        forall|k: int|
            0 <= k < 3 ==> shuffles_terms(cs, row, count)[3 * n + k] == #[trigger] shuffle_parts(
                row,
                n,
                shuffle_value(cs.shuffles@[n].input_expressions@, with_previous(row.env, 0)),
                shuffle_value(cs.shuffles@[n].shuffle_expressions@, with_previous(row.env, 0)),
            )[k],
    decreases count,
{
    let last = (count - 1) as nat;
    lemma_shuffles_fold(cs, row, 0, count);
    lemma_shuffles_fold(cs, row, 0, last);
    if n < last {
        lemma_shuffle_place(cs, row, n, last);
    }
    let env = with_previous(row.env, 0);
    let a = shuffle_value(cs.shuffles@[n].input_expressions@, env);
    let b = shuffle_value(cs.shuffles@[n].shuffle_expressions@, env);
    assert forall|k: int| 0 <= k < 3 implies shuffles_terms(cs, row, count)[3 * n + k]
        == #[trigger] shuffle_parts(row, n, a, b)[k] by {}
}

/// Polynomials of an instance, extended, at a row and its neighbours.
proof fn lemma_neighbours(args: QuotientArgs, polys: Seq<Polynomial>, row: int)
    requires
        args.pk.vk.domain.wf(),
        args.pk.vk.domain.polys_wf(polys),
        0 <= row < pow2(args.pk.vk.domain.extended_k as nat),
    ensures
        ({
            let domain = args.pk.vk.domain;
            let size = pow2(domain.extended_k as nat) as int;
            let scale = pow2((domain.extended_k - domain.k) as nat) as int;
            let e = domain.extend_all(table_vals(polys));
            let next = rotated(row, 1, domain.scale(), domain.size());
            let prev = rotated(row, -1, domain.scale(), domain.size());
            forall|s: int|
                0 <= s < polys.len() ==> {
                    &&& (#[trigger] e[s])[row] == value_at(args, polys[s], row)
                    &&& e[s][next] == value_at(args, polys[s], (row + scale) % size)
                    &&& e[s][prev] == value_at(args, polys[s], (row - scale) % size)
                }
        }),
{
    let domain = args.pk.vk.domain;
    let size = pow2(domain.extended_k as nat) as int;
    let scale = pow2((domain.extended_k - domain.k) as nat) as int;
    lemma_extended_at(args, polys, row, 0);
    lemma_extended_at(args, polys, row, 1);
    lemma_extended_at(args, polys, row, -1);
    lemma_mul_basics(scale);
    lemma_small_mod(row as nat, size as nat);
}

/// The five terms of lookup `n`, over its own three polynomials and its own expressions: its
/// product starts at one and ends at zero or one; the product is carried to the next row by the
/// permuted pair against the compressed pair; the permuted columns agree at the first row, and
/// elsewhere the permuted input agrees with the permuted table or with the row before.
#[verifier::spinoff_prover]
#[verifier::rlimit(50)]
pub proof fn law_lookup_terms(
    args: QuotientArgs,
    ev: Evaluator,
    cs: ConstraintSystemBack,
    i: int,
    row: int,
    n: int,
)
    requires
        args.wf(ev),
        ev.computes(cs),
        0 <= i < args.instances(),
        0 <= row < pow2(args.pk.vk.domain.extended_k as nat),
        0 <= n < args.lookups@[i]@.len(),
    ensures
        ({
            let m = modulus();
            let domain = args.pk.vk.domain;
            let size = pow2(domain.extended_k as nat) as int;
            let scale = pow2((domain.extended_k - domain.k) as nat) as int;
            let at = |p: Polynomial, r: int|
                sum(
                    |j: int|
                        val(p.values@[j]) * pow(
                            zeta() * pow(val(domain.extended_omega), r as nat),
                            j as nat,
                        ),
                    p.values@.len(),
                ) % m;
            let terms = instance_terms(args, cs, i, row);
            let lookups = args.lookups@[i]@.len();
            let shuffles = args.shuffles@[i]@.len();
            let first = terms.len() - 3 * shuffles - 5 * lookups + 5 * n;
            let env = args.row(i, row).env;
            let l = args.lookups@[i]@[n];
            let next = (row + scale) % size;
            let prev = (row - scale) % size;
            let z = at(l.product_poly, row);
            let z_next = at(l.product_poly, next);
            let a = at(l.permuted_input_poly, row);
            let a_prev = at(l.permuted_input_poly, prev);
            let s = at(l.permuted_table_poly, row);
            let l0 = val(args.pk.l0.values@[row]);
            let l_last = val(args.pk.l_last.values@[row]);
            let l_active = val(args.pk.l_active_row.values@[row]);
            let (beta, gamma, theta) = (val(args.beta), val(args.gamma), val(args.theta));
            let input = cs.lookups@[n].input_expressions@;
            let table = cs.lookups@[n].table_expressions@;
            let input_value = sum(
                |j: int| expr_value(input[j], env) * pow(theta, (input.len() - 1 - j) as nat),
                input.len(),
            );
            let table_value = sum(
                |j: int| expr_value(table[j], env) * pow(theta, (table.len() - 1 - j) as nat),
                table.len(),
            );
            &&& first >= cs.gates@.len()
            &&& terms[first] == ((1 - z) * l0) % m
            &&& terms[first + 1] == ((z * z - z) * l_last) % m
            &&& terms[first + 2] == ((z_next * (a + beta) * (s + gamma) - z * ((input_value + beta)
                * (table_value + gamma))) * l_active) % m
            &&& terms[first + 3] == ((a - s) * l0) % m
            &&& terms[first + 4] == ((a - s) * (a - a_prev) * l_active) % m
        }),
{
    let m = modulus();
    let domain = args.pk.vk.domain;
    let size = pow2(domain.extended_k as nat) as int;
    let scale = pow2((domain.extended_k - domain.k) as nat) as int;
    let at = |p: Polynomial, r: int|
        sum(
            |j: int|
                val(p.values@[j]) * pow(
                    zeta() * pow(val(domain.extended_omega), r as nat),
                    j as nat,
                ),
            p.values@.len(),
        ) % m;
    let r = args.row(i, row);
    let env = r.env;
    let all = args.lookups@[i]@;
    let l = all[n];
    assert(args.instance_wf(ev, i));
    lemma_modulus_bounds();
    assert forall|p: Polynomial, q: int| #[trigger] at(p, q) == value_at(args, p, q) by {}
    let zs = Seq::new(all.len(), |j: int| all[j].product_poly);
    let inputs = Seq::new(all.len(), |j: int| all[j].permuted_input_poly);
    let tables = Seq::new(all.len(), |j: int| all[j].permuted_table_poly);
    assert forall|j: int| 0 <= j < all.len() implies domain.poly_wf(
        #[trigger] zs[j],
    ) && domain.poly_wf(inputs[j]) && domain.poly_wf(tables[j]) by {
        assert(domain.poly_wf(all[j].product_poly));
    }
    assert(domain.polys_wf(inputs)) by {
        assert forall|j: int| 0 <= j < all.len() implies domain.poly_wf(#[trigger] inputs[j]) by {
            assert(domain.poly_wf(zs[j]));
        }
    }
    assert(domain.polys_wf(tables)) by {
        assert forall|j: int| 0 <= j < all.len() implies domain.poly_wf(#[trigger] tables[j]) by {
            assert(domain.poly_wf(zs[j]));
        }
    }
    assert(table_vals(zs) =~= lookup_products(all));
    assert(table_vals(inputs) =~= lookup_inputs(all));
    assert(table_vals(tables) =~= lookup_tables(all));
    lemma_neighbours(args, zs, row);
    lemma_neighbours(args, inputs, row);
    lemma_neighbours(args, tables, row);
    let z = r.lookup_z[n];
    let zn = r.lookup_z_next[n];
    let a = r.lookup_a[n];
    let ap = r.lookup_a_prev[n];
    let s = r.lookup_s[n];
    assert(z == at(l.product_poly, row) && zn == at(l.product_poly, (row + scale) % size)) by {
        assert(zs[n] == l.product_poly);
        assert(domain.extend_all(lookup_products(all))[n][row] == z);
    }
    assert(a == at(l.permuted_input_poly, row) && ap == at(
        l.permuted_input_poly,
        (row - scale) % size,
    )) by {
        assert(inputs[n] == l.permuted_input_poly);
        assert(domain.extend_all(lookup_inputs(all))[n][row] == a);
    }
    assert(s == at(l.permuted_table_poly, row)) by {
        assert(tables[n] == l.permuted_table_poly);
        assert(domain.extend_all(lookup_tables(all))[n][row] == s);
    }
    assert(with_previous(env, 0) == env);
    let v = lookup_value(cs.lookups@[n], env);
    lemma_lookup_value(cs, n, env);
    let input = cs.lookups@[n].input_expressions@;
    let table = cs.lookups@[n].table_expressions@;
    let iv = sum(
        |j: int| expr_value(input[j], env) * pow(env.theta, (input.len() - 1 - j) as nat),
        input.len(),
    );
    let tv = sum(
        |j: int| expr_value(table[j], env) * pow(env.theta, (table.len() - 1 - j) as nat),
        table.len(),
    );
    let raw = (iv + env.beta) * (tv + env.gamma);
    assert(v % m == raw % m) by {
        lemma_mod_twice(raw, m);
    }
    // Each term, up to multiples of the prime.
    let (b, g) = (env.beta, env.gamma);
    lemma_congruent_ops(1, z, 1, z);
    lemma_congruent_ops(fsub(1, z), r.l0, 1 - z, r.l0);
    lemma_congruent_ops(z, z, z, z);
    lemma_congruent_ops(fmul(z, z), z, z * z, z);
    lemma_congruent_ops(fsub(fmul(z, z), z), r.l_last, z * z - z, r.l_last);
    lemma_congruent_ops(a, b, a, b);
    lemma_congruent_ops(zn, fadd(a, b), zn, a + b);
    lemma_congruent_ops(s, g, s, g);
    let p1 = fmul(zn, fadd(a, b));
    lemma_congruent_ops(p1, fadd(s, g), zn * (a + b), s + g);
    let p2 = fmul(p1, fadd(s, g));
    lemma_congruent_ops(z, v, z, raw);
    lemma_congruent_ops(p2, fmul(z, v), zn * (a + b) * (s + g), z * raw);
    lemma_congruent_ops(
        fsub(p2, fmul(z, v)),
        r.l_active,
        zn * (a + b) * (s + g) - z * raw,
        r.l_active,
    );
    lemma_congruent_ops(a, s, a, s);
    lemma_congruent_ops(fsub(a, s), r.l0, a - s, r.l0);
    lemma_congruent_ops(a, ap, a, ap);
    lemma_congruent_ops(fsub(a, s), fsub(a, ap), a - s, a - ap);
    lemma_congruent_ops(
        fmul(fsub(a, s), fsub(a, ap)),
        r.l_active,
        (a - s) * (a - ap),
        r.l_active,
    );
    // And where it stands.
    let terms = instance_terms(args, cs, i, row);
    let gates = expr_values(gate_polys(cs.gates@), with_previous(env, 0));
    let perm = permutation_terms(r, args.chunk_len());
    let lookups = lookups_terms(cs, r, r.lookup_z.len());
    lemma_lookup_place(cs, r, n, r.lookup_z.len());
    lemma_shuffles_fold(cs, r, 0, r.shuffle_z.len());
    let first = terms.len() - 3 * args.shuffles@[i]@.len() - 5 * all.len() + 5 * n;
    assert(first == gates.len() + perm.len() + 5 * n);
    let parts = lookup_parts(r, n, v);
    assert forall|k: int| 0 <= k < 5 implies terms[first + k] == #[trigger] parts[k] by {
        assert(terms[first + k] == lookups[5 * n + k]);
    }
    assert(terms[first + 0] == parts[0]);
    assert(terms[first + 1] == parts[1]);
    assert(terms[first + 2] == parts[2]);
    assert(terms[first + 3] == parts[3]);
    assert(terms[first + 4] == parts[4]);
}

/// The three terms of shuffle `n`, over its own product and its own expressions: the product
/// starts at one, ends at zero or one, and is carried to the next row by the compressed shuffle
/// expressions against the compressed input expressions.
#[verifier::spinoff_prover]
#[verifier::rlimit(50)]
pub proof fn law_shuffle_terms(
    args: QuotientArgs,
    ev: Evaluator,
    cs: ConstraintSystemBack,
    i: int,
    row: int,
    n: int,
)
    requires
        args.wf(ev),
        ev.computes(cs),
        0 <= i < args.instances(),
        0 <= row < pow2(args.pk.vk.domain.extended_k as nat),
        0 <= n < args.shuffles@[i]@.len(),
    ensures
        ({
            let m = modulus();
            let domain = args.pk.vk.domain;
            let size = pow2(domain.extended_k as nat) as int;
            let scale = pow2((domain.extended_k - domain.k) as nat) as int;
            let at = |p: Polynomial, r: int|
                sum(
                    |j: int|
                        val(p.values@[j]) * pow(
                            zeta() * pow(val(domain.extended_omega), r as nat),
                            j as nat,
                        ),
                    p.values@.len(),
                ) % m;
            let terms = instance_terms(args, cs, i, row);
            let shuffles = args.shuffles@[i]@.len();
            let first = terms.len() - 3 * shuffles + 3 * n;
            let env = args.row(i, row).env;
            let next = (row + scale) % size;
            let z = at(args.shuffles@[i]@[n].product_poly, row);
            let z_next = at(args.shuffles@[i]@[n].product_poly, next);
            let l0 = val(args.pk.l0.values@[row]);
            let l_last = val(args.pk.l_last.values@[row]);
            let l_active = val(args.pk.l_active_row.values@[row]);
            let (gamma, theta) = (val(args.gamma), val(args.theta));
            let input = cs.shuffles@[n].input_expressions@;
            let shuffle = cs.shuffles@[n].shuffle_expressions@;
            let input_value = sum(
                |j: int| expr_value(input[j], env) * pow(theta, (input.len() - 1 - j) as nat),
                input.len(),
            );
            let shuffle_value = sum(
                |j: int| expr_value(shuffle[j], env) * pow(theta, (shuffle.len() - 1 - j) as nat),
                shuffle.len(),
            );
            &&& first >= cs.gates@.len()
            &&& terms[first] == ((1 - z) * l0) % m
            &&& terms[first + 1] == ((z * z - z) * l_last) % m
            &&& terms[first + 2] == (l_active * (z_next * (shuffle_value + gamma) - z * (input_value
                + gamma))) % m
        }),
{
    let m = modulus();
    let domain = args.pk.vk.domain;
    let size = pow2(domain.extended_k as nat) as int;
    let scale = pow2((domain.extended_k - domain.k) as nat) as int;
    let at = |p: Polynomial, r: int|
        sum(
            |j: int|
                val(p.values@[j]) * pow(
                    zeta() * pow(val(domain.extended_omega), r as nat),
                    j as nat,
                ),
            p.values@.len(),
        ) % m;
    let r = args.row(i, row);
    let env = r.env;
    let all = args.shuffles@[i]@;
    assert(args.instance_wf(ev, i));
    lemma_modulus_bounds();
    assert forall|p: Polynomial, q: int| #[trigger] at(p, q) == value_at(args, p, q) by {}
    let zs = Seq::new(all.len(), |j: int| all[j].product_poly);
    assert forall|j: int| 0 <= j < all.len() implies domain.poly_wf(#[trigger] zs[j]) by {
        assert(domain.poly_wf(all[j].product_poly));
    }
    assert(table_vals(zs) =~= shuffle_products(all));
    lemma_neighbours(args, zs, row);
    let z = r.shuffle_z[n];
    let zn = r.shuffle_z_next[n];
    assert(z == at(all[n].product_poly, row) && zn == at(
        all[n].product_poly,
        (row + scale) % size,
    )) by {
        assert(zs[n] == all[n].product_poly);
        assert(domain.extend_all(shuffle_products(all))[n][row] == z);
    }
    assert(with_previous(env, 0) == env);
    let input = cs.shuffles@[n].input_expressions@;
    let shuffle = cs.shuffles@[n].shuffle_expressions@;
    lemma_shuffle_value(input, env);
    lemma_shuffle_value(shuffle, env);
    let iv = shuffle_value(input, env);
    let sv = shuffle_value(shuffle, env);
    let ri = sum(
        |j: int| expr_value(input[j], env) * pow(env.theta, (input.len() - 1 - j) as nat),
        input.len(),
    ) + env.gamma;
    let rs = sum(
        |j: int| expr_value(shuffle[j], env) * pow(env.theta, (shuffle.len() - 1 - j) as nat),
        shuffle.len(),
    ) + env.gamma;
    lemma_mod_twice(ri, m);
    lemma_mod_twice(rs, m);
    lemma_congruent_ops(1, z, 1, z);
    lemma_congruent_ops(fsub(1, z), r.l0, 1 - z, r.l0);
    lemma_congruent_ops(z, z, z, z);
    lemma_congruent_ops(fmul(z, z), z, z * z, z);
    lemma_congruent_ops(fsub(fmul(z, z), z), r.l_last, z * z - z, r.l_last);
    lemma_congruent_ops(zn, sv, zn, rs);
    lemma_congruent_ops(z, iv, z, ri);
    lemma_congruent_ops(fmul(zn, sv), fmul(z, iv), zn * rs, z * ri);
    lemma_congruent_ops(
        r.l_active,
        fsub(fmul(zn, sv), fmul(z, iv)),
        r.l_active,
        zn * rs - z * ri,
    );
    let terms = instance_terms(args, cs, i, row);
    let gates = expr_values(gate_polys(cs.gates@), with_previous(env, 0));
    let shuffles = shuffles_terms(cs, r, r.shuffle_z.len());
    lemma_shuffle_place(cs, r, n, r.shuffle_z.len());
    let first = terms.len() - 3 * all.len() + 3 * n;
    let parts = shuffle_parts(r, n, iv, sv);
    assert forall|k: int| 0 <= k < 3 implies terms[first + k] == #[trigger] parts[k] by {
        assert(terms[first + k] == shuffles[3 * n + k]);
    }
    assert(terms[first + 0] == parts[0]);
    assert(terms[first + 1] == parts[1]);
    assert(terms[first + 2] == parts[2]);
}

/// The instances are as many as every one of the lists holds.
pub proof fn law_instances(args: QuotientArgs)
    ensures
        ({
            let n = args.instances();
            &&& n <= args.advice_polys@.len()
            &&& n <= args.instance_polys@.len()
            &&& n <= args.lookups@.len()
            &&& n <= args.shuffles@.len()
            &&& n <= args.permutations@.len()
            &&& n == args.advice_polys@.len() || n == args.instance_polys@.len() || n
                == args.lookups@.len() || n == args.shuffles@.len() || n
                == args.permutations@.len()
        }),
{
}

/// The values whose fingerprint the benchmark takes: at every row of the extended domain, each
/// of the gates times its power of `y`, over the key's fixed columns and the values of the
/// advice polynomials.
pub proof fn law_bench_values(
    pk: ProvingKey,
    cs: ConstraintSystemBack,
    advice: Seq<Polynomial>,
    challenges: Seq<Fr>,
    y: Fr,
    beta: Fr,
    gamma: Fr,
    theta: Fr,
    row: int,
    c: int,
    rot: int,
)
    requires
        pk.wf(),
        pk.ev.computes(cs),
        pk.vk.domain.polys_wf(advice),
        canonical_all(challenges),
        canonical(y),
        canonical(beta),
        canonical(gamma),
        canonical(theta),
        0 <= row < pow2(pk.vk.domain.extended_k as nat),
    ensures
        ({
            let domain = pk.vk.domain;
            let size = pow2(domain.extended_k as nat) as int;
            let scale = pow2((domain.extended_k - domain.k) as nat) as int;
            let tables = bench_tables(pk, advice, challenges, y, beta, gamma, theta);
            let values = bench_values(pk, tables);
            let env = tables.env(row_of(row, scale, size), 0);
            let r = (row + rot * scale) % size;
            let gates = cs.gates@;
            &&& values.len() == size
            &&& values[row] == sum(
                |i: int| expr_value(gates[i].poly, env) * pow(val(y), (gates.len() - 1 - i) as nat),
                gates.len(),
            ) % modulus()
            &&& 0 <= c < pk.fixed_cosets@.len() ==> (env.fixed)(c, rot) == val(
                pk.fixed_cosets@[c].values@[r],
            )
            &&& 0 <= c < advice.len() ==> (env.advice)(c, rot) == sum(
                |j: int|
                    val(advice[c].values@[j]) * pow(
                        zeta() * pow(val(domain.extended_omega), r as nat),
                        j as nat,
                    ),
                advice[c].values@.len(),
            ) % modulus()
            &&& 0 <= c < challenges.len() ==> (env.challenges)(c) == val(challenges[c])
        }),
{
    let domain = pk.vk.domain;
    let size = pow2(domain.extended_k as nat) as int;
    let scale = pow2((domain.extended_k - domain.k) as nat) as int;
    let t = bench_tables(pk, advice, challenges, y, beta, gamma, theta);
    let at = row_of(row, scale, size);
    let env = t.env(at, 0);
    let r = (row + rot * scale) % size;
    lemma_modulus_bounds();
    lemma_pow2_pos(domain.extended_k as nat);
    lemma_mod_bound(row + rot * scale, size);
    assert forall|c: int, q: int| elem(#[trigger] (env.fixed)(c, q)) by {
        let k = at(q);
        if 0 <= c < t.fixed.len() && 0 <= k < t.fixed[c].len() {
            assert(coset_wf(pk.fixed_cosets@[c], size));
            assert(canonical(pk.fixed_cosets@[c].values@[k]));
        }
    }
    assert forall|c: int, q: int| elem(#[trigger] (env.advice)(c, q)) by {
        let k = at(q);
        if 0 <= c < t.advice.len() && 0 <= k < t.advice[c].len() {
            lemma_extended_elem(domain, table_vals(advice)[c], k);
        }
    }
    assert forall|c: int, q: int| elem(#[trigger] (env.instance)(c, q)) by {}
    assert forall|j: int| elem(#[trigger] (env.challenges)(j)) by {
        if 0 <= j < challenges.len() {
            assert(canonical(challenges[j]));
        }
    }
    assert(env.wf());
    law_gates_graph(pk.ev, cs, env);
    lemma_mul_basics(pow(env.y, cs.gates@.len()));
    if 0 <= c < pk.fixed_cosets@.len() {
        assert(coset_wf(pk.fixed_cosets@[c], size));
        assert(t.fixed[c] == vals(pk.fixed_cosets@[c].values@));
    }
    if 0 <= c < advice.len() {
        assert(domain.poly_wf(advice[c]));
        law_extended_polynomial(domain, advice[c], r);
        assert(t.advice[c] == domain.extend(vals(advice[c].values@)));
        assert(t.advice[c].len() == size);
    }
    if 0 <= c < challenges.len() {
        assert(t.challenges[c] == val(challenges[c]));
    }
}

/// The polynomials of an instance that have to be extended, one after the other: advice columns,
/// instance columns, permutation products, then the products, the permuted inputs and the
/// permuted tables of the lookups, and the products of the shuffles.
pub proof fn law_fresh_polys(args: QuotientArgs, i: int, j: int)
    requires
        0 <= j,
    ensures
        ({
            let list = args.fresh_polys(i);
            let (a, b) = (args.advice_polys@[i]@, args.instance_polys@[i]@);
            let (s, l, h) = (args.permutations@[i].sets@, args.lookups@[i]@, args.shuffles@[i]@);
            let n1 = a.len() as int;
            let n2 = n1 + b.len();
            let n3 = n2 + s.len();
            let n4 = n3 + 3 * l.len();
            &&& list.len() == n4 + h.len()
            &&& j < a.len() ==> list[j] == a[j]
            &&& j < b.len() ==> list[n1 + j] == b[j]
            &&& j < s.len() ==> list[n2 + j] == s[j].permutation_product_poly
            &&& j < l.len() ==> list[n3 + j] == l[j].product_poly
            &&& j < l.len() ==> list[n3 + l.len() + j] == l[j].permuted_input_poly
            &&& j < l.len() ==> list[n3 + 2 * l.len() + j] == l[j].permuted_table_poly
            &&& j < h.len() ==> list[n4 + j] == h[j].product_poly
        }),
{
}

} // verus!
