//! How the quotient depends on what came before: each term multiplies it by `y` once, so an
//! instance multiplies it by a power of `y` and adds its own part.

use vstd::arithmetic::div_mod::*;
use vstd::arithmetic::mul::*;
use vstd::arithmetic::power::*;
use vstd::prelude::*;

use crate::field::{fadd, fmul, fpow, fsub, lemma_modulus_bounds, modulus, val};
use crate::four_step::lemma_fpow_add;
use crate::plonk::arith::lemma_identities;
use crate::plonk::circuit::{elem, expr_value, Env, ExpressionBack, Polynomial};
use crate::plonk::evaluate::QuotientArgs;
use crate::plonk::evaluation::is_quotient;
use crate::plonk::evaluator::{expr_values, gate_polys, ConstraintSystemBack, Evaluator};
use crate::plonk::graph::horner_value;
use crate::plonk::quotient::{
    ends_terms, fold, gates_term, link_terms, lookup_term, lookup_terms, permutation_term,
    row_value, set_terms, sets_in_use, shuffle_term, shuffle_terms, with_previous, Row,
};
use crate::plonk::system::{law_quotient_of_system, lemma_previous_wf, lemma_row_env};

verus! {

/// The number of terms of an instance: one for each gate; for a permutation with sets, its
/// two ends, a link to each set after the first, and one for each set in use; five for each
/// lookup; three for each shuffle.
pub open spec fn term_count(gates: nat, row: Row, chunk_len: int) -> nat {
    gates + (if row.z.len() == 0 {
        0
    } else {
        (2 + (row.z.len() - 1) + sets_in_use(row, chunk_len)) as nat
    }) + 5 * row.lookup_z.len() + 3 * row.shuffle_z.len()
}

/// `w` is `w0` with `v` added `n` terms earlier.
pub open spec fn ahead(v: int, y: int, n: nat, w: int, w0: int) -> bool {
    w == fadd(fmul(v, fpow(y, n)), w0)
}

/// One more term multiplies what came before by `y`.
proof fn lemma_fold_ahead(v: int, y: int, n: nat, w: int, w0: int, term: int)
    requires
        ahead(v, y, n, w, w0),
    ensures
        ahead(v, y, n + 1, fold(w, y, term), fold(w0, y, term)),
{
    let m = modulus();
    let p = fpow(y, n);
    lemma_modulus_bounds();
    lemma_fpow_add(y, n, 1);
    reveal(fadd);
    reveal(fmul);
    assert(fpow(y, 1) == y % m) by {
        reveal(fpow);
        lemma_pow1(y);
    }
    let q = fpow(y, n + 1);
    assert(q == (p * y) % m) by {
        lemma_mul_mod_noop_right(p, y, m);
    }
    // The left side is congruent to `v * p * y + w0 * y + term`.
    let x = v * p;
    lemma_add_mod_noop(x, w0, m);
    lemma_mod_twice(x, m);
    assert(w == (x + w0) % m) by {
        lemma_add_mod_noop(x % m, w0, m);
    }
    lemma_mul_mod_noop_left(x + w0, y, m);
    assert((w * y) % m == ((x + w0) * y) % m);
    lemma_mul_is_distributive_add_other_way(y, x, w0);
    lemma_add_mod_noop(x * y + w0 * y, term, m);
    lemma_add_mod_noop((w * y) % m, term, m);
    lemma_mod_twice(w * y, m);
    assert(fold(w, y, term) == (x * y + w0 * y + term) % m);
    // So is the right side.
    lemma_mul_mod_noop_right(v, p * y, m);
    lemma_mul_is_associative(v, p, y);
    assert((v * q) % m == (x * y) % m);
    lemma_add_mod_noop(w0 * y, term, m);
    lemma_add_mod_noop((w0 * y) % m, term, m);
    lemma_mod_twice(w0 * y, m);
    assert(fold(w0, y, term) == (w0 * y + term) % m);
    lemma_add_mod_noop(x * y, w0 * y + term, m);
    lemma_add_mod_noop((v * q) % m, fold(w0, y, term), m);
    lemma_mod_twice(x * y, m);
    lemma_mod_twice(w0 * y + term, m);
}

/// The same, whatever the term.
proof fn lemma_any_ahead(v: int, y: int, n: nat, w: int, w0: int)
    requires
        ahead(v, y, n, w, w0),
    ensures
        forall|term: int| ahead(v, y, n + 1, #[trigger] fold(w, y, term), fold(w0, y, term)),
{
    assert forall|term: int| ahead(v, y, n + 1, #[trigger] fold(w, y, term), fold(w0, y, term)) by {
        lemma_fold_ahead(v, y, n, w, w0, term);
    }
}

/// Terms one after the other.
proof fn lemma_terms_ahead(v: int, y: int, n: nat, w: int, w0: int, parts: Seq<int>, k: nat)
    requires
        ahead(v, y, n, w, w0),
    ensures
        ahead(v, y, n + k, horner_value(w, parts, y, k), horner_value(w0, parts, y, k)),
    decreases k,
{
    if k > 0 {
        let j = (k - 1) as nat;
        lemma_terms_ahead(v, y, n, w, w0, parts, j);
        lemma_fold_ahead(
            v,
            y,
            n + j,
            horner_value(w, parts, y, j),
            horner_value(w0, parts, y, j),
            parts[j as int],
        );
    }
}

/// Before the first term.
proof fn lemma_nothing_ahead(v: int, y: int)
    requires
        elem(v),
    ensures
        ahead(v, y, 0, v, 0),
{
    lemma_modulus_bounds();
    lemma_identities(v, 0);
    reveal(fpow);
    lemma_pow0(y);
    lemma_small_mod(1, modulus() as nat);
}

proof fn lemma_ends_ahead(row: Row, first: int, last: int, v: int, n: nat, w: int, w0: int)
    requires
        ahead(v, row.env.y, n, w, w0),
    ensures
        ahead(
            v,
            row.env.y,
            n + 2,
            ends_terms(row, first, last, w),
            ends_terms(row, first, last, w0),
        ),
{
    let y = row.env.y;
    let term = fmul(fsub(1, first), row.l0);
    lemma_any_ahead(v, y, n, w, w0);
    lemma_any_ahead(v, y, n + 1, fold(w, y, term), fold(w0, y, term));
}

proof fn lemma_links_ahead(row: Row, v: int, n: nat, w: int, w0: int, sets: nat)
    requires
        ahead(v, row.env.y, n, w, w0),
        sets > 0,
    ensures
        ahead(
            v,
            row.env.y,
            (n + sets - 1) as nat,
            link_terms(row, w, sets),
            link_terms(row, w0, sets),
        ),
    decreases sets,
{
    if sets > 1 {
        let s = (sets - 1) as nat;
        lemma_links_ahead(row, v, n, w, w0, s);
        lemma_any_ahead(
            v,
            row.env.y,
            (n + s - 1) as nat,
            link_terms(row, w, s),
            link_terms(row, w0, s),
        );
    }
}

proof fn lemma_sets_ahead(row: Row, chunk_len: int, v: int, n: nat, w: int, w0: int, sets: nat)
    requires
        ahead(v, row.env.y, n, w, w0),
    ensures
        ahead(
            v,
            row.env.y,
            n + sets,
            set_terms(row, chunk_len, w, sets),
            set_terms(row, chunk_len, w0, sets),
        ),
    decreases sets,
{
    if sets > 0 {
        let s = (sets - 1) as nat;
        lemma_sets_ahead(row, chunk_len, v, n, w, w0, s);
        lemma_any_ahead(
            v,
            row.env.y,
            n + s,
            set_terms(row, chunk_len, w, s),
            set_terms(row, chunk_len, w0, s),
        );
    }
}

/// The five terms of a lookup.
pub open spec fn lookup_parts(row: Row, n: int, table_value: int) -> Seq<int> {
    let z = row.lookup_z[n];
    let a = row.lookup_a[n];
    let s = row.lookup_s[n];
    seq![
        fmul(fsub(1, z), row.l0),
        fmul(fsub(fmul(z, z), z), row.l_last),
        fmul(
            fsub(
                fmul(
                    fmul(row.lookup_z_next[n], fadd(a, row.env.beta)),
                    fadd(s, row.env.gamma),
                ),
                fmul(z, table_value),
            ),
            row.l_active,
        ),
        fmul(fsub(a, s), row.l0),
        fmul(fmul(fsub(a, s), fsub(a, row.lookup_a_prev[n])), row.l_active),
    ]
}

proof fn lemma_lookups_ahead(ev: Evaluator, row: Row, v: int, n: nat, w: int, w0: int, count: nat)
    requires
        ahead(v, row.env.y, n, w, w0),
    ensures
        ahead(
            v,
            row.env.y,
            n + 5 * count,
            lookup_terms(ev, row, w, count),
            lookup_terms(ev, row, w0, count),
        ),
    decreases count,
{
    if count > 0 {
        let k = count - 1;
        lemma_lookups_ahead(ev, row, v, n, w, w0, k as nat);
        let a = lookup_terms(ev, row, w, k as nat);
        let b = lookup_terms(ev, row, w0, k as nat);
        let parts = lookup_parts(row, k, ev.lookups@[k].result(with_previous(row.env, 0)));
        lemma_terms_ahead(v, row.env.y, (n + 5 * k) as nat, a, b, parts, 5);
        reveal_with_fuel(horner_value, 6);
        assert(lookup_term(ev, row, k, a) == horner_value(a, parts, row.env.y, 5));
        assert(lookup_term(ev, row, k, b) == horner_value(b, parts, row.env.y, 5));
    }
}

/// The three terms of a shuffle.
pub open spec fn shuffle_parts(row: Row, n: int, input_value: int, shuffle_value: int) -> Seq<int> {
    let z = row.shuffle_z[n];
    seq![
        fmul(fsub(1, z), row.l0),
        fmul(fsub(fmul(z, z), z), row.l_last),
        fmul(
            row.l_active,
            fsub(fmul(row.shuffle_z_next[n], shuffle_value), fmul(z, input_value)),
        ),
    ]
}

proof fn lemma_shuffles_ahead(ev: Evaluator, row: Row, v: int, n: nat, w: int, w0: int, count: nat)
    requires
        ahead(v, row.env.y, n, w, w0),
    ensures
        ahead(
            v,
            row.env.y,
            n + 3 * count,
            shuffle_terms(ev, row, w, count),
            shuffle_terms(ev, row, w0, count),
        ),
    decreases count,
{
    if count > 0 {
        let k = count - 1;
        lemma_shuffles_ahead(ev, row, v, n, w, w0, k as nat);
        let a = shuffle_terms(ev, row, w, k as nat);
        let b = shuffle_terms(ev, row, w0, k as nat);
        let env = with_previous(row.env, 0);
        let parts = shuffle_parts(
            row,
            k,
            ev.shuffles@[2 * k].result(env),
            ev.shuffles@[2 * k + 1].result(env),
        );
        lemma_terms_ahead(v, row.env.y, (n + 3 * k) as nat, a, b, parts, 3);
        reveal_with_fuel(horner_value, 4);
        assert(shuffle_term(ev, row, k, a) == horner_value(a, parts, row.env.y, 3));
        assert(shuffle_term(ev, row, k, b) == horner_value(b, parts, row.env.y, 3));
    }
}

/// A row's value, with every term of an instance folded into `v`, is `v` times as many powers
/// of `y` as there are terms, plus the value with every term folded into zero.
pub proof fn law_row_shift(
    ev: Evaluator,
    cs: ConstraintSystemBack,
    row: Row,
    chunk_len: int,
    v: int,
)
    requires
        ev.computes(cs),
        row.env.wf(),
        elem(v),
    ensures
        row_value(ev, row, chunk_len, v) == fadd(
            fmul(v, fpow(row.env.y, term_count(cs.gates@.len(), row, chunk_len))),
            row_value(ev, row, chunk_len, 0),
        ),
{
    let y = row.env.y;
    let g = cs.gates@.len();
    lemma_modulus_bounds();
    lemma_previous_wf(row.env, v);
    lemma_previous_wf(row.env, 0);
    let a1 = gates_term(ev, row, v);
    let b1 = gates_term(ev, row, 0);
    let e = gate_polys(cs.gates@);
    let parts = expr_values(e, with_previous(row.env, 0));
    lemma_exprs_previous(e, row.env, v);
    lemma_nothing_ahead(v, y);
    lemma_terms_ahead(v, y, 0, v, 0, parts, g);
    assert(ahead(v, y, g, a1, b1));
    let a2 = permutation_term(row, chunk_len, a1);
    let b2 = permutation_term(row, chunk_len, b1);
    let sets = row.z.len();
    let n2 = if sets == 0 {
        g
    } else {
        (g + 2 + (sets - 1) + sets_in_use(row, chunk_len)) as nat
    };
    if sets > 0 {
        lemma_ends_ahead(row, row.z[0], row.z.last(), v, g, a1, b1);
        let ea = ends_terms(row, row.z[0], row.z.last(), a1);
        let eb = ends_terms(row, row.z[0], row.z.last(), b1);
        lemma_links_ahead(row, v, g + 2, ea, eb, sets);
        lemma_sets_ahead(
            row,
            chunk_len,
            v,
            (g + 2 + sets - 1) as nat,
            link_terms(row, ea, sets),
            link_terms(row, eb, sets),
            sets_in_use(row, chunk_len),
        );
    }
    assert(ahead(v, y, n2, a2, b2));
    let lookups = row.lookup_z.len();
    lemma_lookups_ahead(ev, row, v, n2, a2, b2, lookups);
    lemma_shuffles_ahead(
        ev,
        row,
        v,
        n2 + 5 * lookups,
        lookup_terms(ev, row, a2, lookups),
        lookup_terms(ev, row, b2, lookups),
        row.shuffle_z.len(),
    );
}

/// Expressions do not look at the value that a row had before.
pub proof fn lemma_exprs_previous(e: Seq<ExpressionBack>, env: Env, v: int)
    ensures
        expr_values(e, with_previous(env, v)) == expr_values(e, with_previous(env, 0)),
{
    assert forall|i: int| 0 <= i < e.len() implies expr_value(e[i], with_previous(env, v))
        == expr_value(e[i], with_previous(env, 0)) by {
        lemma_expr_previous(e[i], env, v);
    }
    assert(expr_values(e, with_previous(env, v)) =~= expr_values(e, with_previous(env, 0)));
}

proof fn lemma_expr_previous(e: ExpressionBack, env: Env, v: int)
    ensures
        expr_value(e, with_previous(env, v)) == expr_value(e, with_previous(env, 0)),
    decreases e,
{
    match e {
        ExpressionBack::Constant(_) => {},
        ExpressionBack::Var(_) => {},
        ExpressionBack::Negated(a) => {
            lemma_expr_previous(*a, env, v);
        },
        ExpressionBack::Sum(a, b) => {
            lemma_expr_previous(*a, env, v);
            lemma_expr_previous(*b, env, v);
        },
        ExpressionBack::Product(a, b) => {
            lemma_expr_previous(*a, env, v);
            lemma_expr_previous(*b, env, v);
        },
    }
}

/// One more instance multiplies the quotient by as many powers of `y` as the instance has
/// terms, and adds the instance's own terms.
pub proof fn law_next_instance(
    args: QuotientArgs,
    ev: Evaluator,
    cs: ConstraintSystemBack,
    row: int,
    n: nat,
)
    requires
        args.wf(ev),
        ev.computes(cs),
        n < args.instances(),
        0 <= row < args.pk.vk.domain.size(),
    ensures
        args.quotient(ev, row, n + 1) == fadd(
            fmul(
                args.quotient(ev, row, n),
                fpow(
                    val(args.y),
                    term_count(cs.gates@.len(), args.row(n as int, row), args.chunk_len()),
                ),
            ),
            row_value(ev, args.row(n as int, row), args.chunk_len(), 0),
        ),
{
    law_quotient_of_system(args, ev, cs, row, n);
    lemma_row_env(args, ev, n as int, row);
    law_row_shift(
        ev,
        cs,
        args.row(n as int, row),
        args.chunk_len(),
        args.quotient(ev, row, n),
    );
}

/// Two quotients with one key and the same challenges.
pub open spec fn same_setting(a: QuotientArgs, b: QuotientArgs) -> bool {
    &&& a.pk == b.pk
    &&& a.challenges@ == b.challenges@
    &&& a.y == b.y
    &&& a.beta == b.beta
    &&& a.gamma == b.gamma
    &&& a.theta == b.theta
}

/// Instance `i` of one quotient is instance `j` of the other.
pub open spec fn same_instance(a: QuotientArgs, i: int, b: QuotientArgs, j: int) -> bool {
    &&& a.advice_polys@[i]@ == b.advice_polys@[j]@
    &&& a.instance_polys@[i]@ == b.instance_polys@[j]@
    &&& a.lookups@[i]@ == b.lookups@[j]@
    &&& a.shuffles@[i]@ == b.shuffles@[j]@
    &&& a.permutations@[i].sets@ == b.permutations@[j].sets@
}

/// A quotient depends on its instances alone.
proof fn lemma_same_quotient(a: QuotientArgs, b: QuotientArgs, ev: Evaluator, row: int, n: nat)
    requires
        same_setting(a, b),
        forall|i: int| 0 <= i < n ==> #[trigger] same_instance(a, i, b, i),
    ensures
        a.quotient(ev, row, n) == b.quotient(ev, row, n),
    decreases n,
{
    if n > 0 {
        lemma_same_quotient(a, b, ev, row, (n - 1) as nat);
        assert(same_instance(a, n - 1, b, n - 1));
        assert(a.cosets(n - 1) == b.cosets(n - 1));
    }
}

/// The quotient of several instances is the quotient of all but the last, times as many powers
/// of `y` as the last has terms, plus the quotient of the last alone.
pub proof fn law_quotient_of_instances(
    all: QuotientArgs,
    earlier: QuotientArgs,
    one: QuotientArgs,
    ev: Evaluator,
    cs: ConstraintSystemBack,
    p: Polynomial,
    q: Polynomial,
    r: Polynomial,
    row: int,
)
    requires
        all.wf(ev),
        ev.computes(cs),
        same_setting(all, earlier),
        same_setting(all, one),
        all.instances() == earlier.instances() + 1,
        one.instances() == 1,
        forall|i: int|
            0 <= i < earlier.instances() ==> #[trigger] same_instance(all, i, earlier, i),
        same_instance(all, all.instances() - 1, one, 0),
        is_quotient(p, ev, all),
        is_quotient(q, ev, earlier),
        is_quotient(r, ev, one),
        0 <= row < all.pk.vk.domain.size(),
    ensures
        val(p.values@[row]) == fadd(
            fmul(
                val(q.values@[row]),
                fpow(
                    val(all.y),
                    term_count(cs.gates@.len(), one.row(0, row), one.chunk_len()),
                ),
            ),
            val(r.values@[row]),
        ),
{
    let n = earlier.instances();
    law_next_instance(all, ev, cs, row, n);
    lemma_same_quotient(all, earlier, ev, row, n);
    assert(all.cosets(n as int) == one.cosets(0));
    assert(one.quotient(ev, row, 0) == 0);
    assert(one.quotient(ev, row, 1) == row_value(ev, one.row(0, row), one.chunk_len(), 0));
}

} // verus!
