//! The quotient as the constraint system states it: what the evaluator's graphs compute.

use vstd::prelude::*;

use crate::field::{canonical, dft_at, lemma_field_ranges, lemma_modulus_bounds};
use crate::plonk::circuit::{elem, row_of, table_vals, Env};
use crate::plonk::evaluate::{coset_wf, EvaluationDomain, QuotientArgs};
use crate::plonk::evaluator::{
    gates_value, lookup_value, shuffle_value, ConstraintSystemBack, Evaluator,
};
use crate::plonk::graph::{lemma_results_elem, lemma_results_len};
use crate::plonk::quotient::{
    ends_terms, gates_term, link_terms, lookup_terms, lookup_with, permutation_term,
    row_value, set_terms, sets_in_use, shuffle_terms, shuffle_with, with_previous, Row,
};

verus! {

/// The first `n` lookup arguments of a constraint system.
pub open spec fn system_lookups(cs: ConstraintSystemBack, row: Row, v: int, n: nat) -> int
    decreases n,
{
    if n == 0 {
        v
    } else {
        lookup_with(
            row,
            n - 1,
            lookup_value(cs.lookups@[n - 1], with_previous(row.env, 0)),
            system_lookups(cs, row, v, (n - 1) as nat),
        )
    }
}

/// The first `n` shuffle arguments of a constraint system.
pub open spec fn system_shuffles(cs: ConstraintSystemBack, row: Row, v: int, n: nat) -> int
    decreases n,
{
    if n == 0 {
        v
    } else {
        let env = with_previous(row.env, 0);
        shuffle_with(
            row,
            n - 1,
            shuffle_value(cs.shuffles@[n - 1].input_expressions@, env),
            shuffle_value(cs.shuffles@[n - 1].shuffle_expressions@, env),
            system_shuffles(cs, row, v, (n - 1) as nat),
        )
    }
}

/// A row's value with every term of the constraint system folded in.
pub open spec fn system_value(cs: ConstraintSystemBack, row: Row, chunk_len: int, v: int) -> int {
    let v1 = gates_value(cs.gates@, with_previous(row.env, v));
    let v2 = permutation_term(row, chunk_len, v1);
    let v3 = system_lookups(cs, row, v2, row.lookup_z.len());
    system_shuffles(cs, row, v3, row.shuffle_z.len())
}

/// The quotient at a row of the extended domain, as the constraint system states it.
pub open spec fn system_quotient(
    args: QuotientArgs,
    cs: ConstraintSystemBack,
    row: int,
    n: nat,
) -> int
    decreases n,
{
    if n == 0 {
        0
    } else {
        system_value(
            cs,
            args.row(n - 1, row),
            args.chunk_len(),
            system_quotient(args, cs, row, (n - 1) as nat),
        )
    }
}

/// What a row offers is in the field, whatever value it had before.
pub proof fn lemma_previous_wf(env: Env, v: int)
    requires
        env.wf(),
        elem(v),
    ensures
        with_previous(env, v).wf(),
{
    let e = with_previous(env, v);
    assert forall|c: int, r: int| elem(#[trigger] (e.fixed)(c, r)) by {
        assert(elem((env.fixed)(c, r)));
    }
    assert forall|c: int, r: int| elem(#[trigger] (e.advice)(c, r)) by {
        assert(elem((env.advice)(c, r)));
    }
    assert forall|c: int, r: int| elem(#[trigger] (e.instance)(c, r)) by {
        assert(elem((env.instance)(c, r)));
    }
    assert forall|i: int| elem(#[trigger] (e.challenges)(i)) by {
        assert(elem((env.challenges)(i)));
    }
}

/// An evaluator made for a constraint system gives a row the value that the system states.
pub proof fn law_row_of_system(
    ev: Evaluator,
    cs: ConstraintSystemBack,
    row: Row,
    chunk_len: int,
    v: int,
)
    requires
        ev.computes(cs),
        row.env.wf(),
        elem(v),
        row.lookup_z.len() <= cs.lookups@.len(),
        row.shuffle_z.len() <= cs.shuffles@.len(),
    ensures
        row_value(ev, row, chunk_len, v) == system_value(cs, row, chunk_len, v),
{
    lemma_modulus_bounds();
    lemma_previous_wf(row.env, v);
    lemma_previous_wf(row.env, 0);
    let v2 = permutation_term(row, chunk_len, gates_term(ev, row, v));
    lemma_lookups_of_system(ev, cs, row, v2, row.lookup_z.len());
    let v3 = lookup_terms(ev, row, v2, row.lookup_z.len());
    lemma_shuffles_of_system(ev, cs, row, v3, row.shuffle_z.len());
}

proof fn lemma_lookups_of_system(
    ev: Evaluator,
    cs: ConstraintSystemBack,
    row: Row,
    v: int,
    n: nat,
)
    requires
        ev.computes(cs),
        with_previous(row.env, 0).wf(),
        n <= cs.lookups@.len(),
    ensures
        lookup_terms(ev, row, v, n) == system_lookups(cs, row, v, n),
    decreases n,
{
    if n > 0 {
        lemma_lookups_of_system(ev, cs, row, v, (n - 1) as nat);
        assert(ev.lookups@[n - 1].result(with_previous(row.env, 0)) == lookup_value(
            cs.lookups@[n - 1],
            with_previous(row.env, 0),
        ));
    }
}

proof fn lemma_shuffles_of_system(
    ev: Evaluator,
    cs: ConstraintSystemBack,
    row: Row,
    v: int,
    n: nat,
)
    requires
        ev.computes(cs),
        with_previous(row.env, 0).wf(),
        n <= cs.shuffles@.len(),
    ensures
        shuffle_terms(ev, row, v, n) == system_shuffles(cs, row, v, n),
    decreases n,
{
    if n > 0 {
        lemma_shuffles_of_system(ev, cs, row, v, (n - 1) as nat);
        let env = with_previous(row.env, 0);
        let i = n - 1;
        assert(ev.shuffles@[2 * i].result(env) == shuffle_value(
            cs.shuffles@[i].input_expressions@,
            env,
        ));
        assert(ev.shuffles@[2 * i + 1].result(env) == shuffle_value(
            cs.shuffles@[i].shuffle_expressions@,
            env,
        ));
    }
}

/// The quotient that an evaluator made for a constraint system computes is the one that the
/// system states.
pub proof fn law_quotient_of_system(
    args: QuotientArgs,
    ev: Evaluator,
    cs: ConstraintSystemBack,
    row: int,
    n: nat,
)
    requires
        args.wf(ev),
        ev.computes(cs),
        n <= args.instances(),
        0 <= row < args.pk.vk.domain.size(),
    ensures
        args.quotient(ev, row, n) == system_quotient(args, cs, row, n),
        elem(args.quotient(ev, row, n)),
    decreases n,
{
    lemma_modulus_bounds();
    if n > 0 {
        let i = n - 1;
        law_quotient_of_system(args, ev, cs, row, i as nat);
        let v = args.quotient(ev, row, i as nat);
        let r = args.row(i, row);
        lemma_row_env(args, ev, i, row);
        assert(args.instance_wf(ev, i));
        law_row_of_system(ev, cs, r, args.chunk_len(), v);
        lemma_row_value_elem(ev, r, args.chunk_len(), v);
    }
}

/// The rows of the extended domain offer integers of the field.
pub proof fn lemma_row_env(args: QuotientArgs, ev: Evaluator, i: int, row: int)
    requires
        args.wf(ev),
        0 <= i < args.instances(),
    ensures
        args.row(i, row).env.wf(),
{
    let domain = args.pk.vk.domain;
    let t = args.cosets(i).tables;
    let env = args.row(i, row).env;
    let at = row_of(row, domain.scale(), domain.size());
    lemma_modulus_bounds();
    assert forall|c: int, r: int| elem(#[trigger] (env.fixed)(c, r)) by {
        let k = at(r);
        if 0 <= c < t.fixed.len() && 0 <= k < t.fixed[c].len() {
            assert(coset_wf(args.pk.fixed_cosets@[c], domain.size()));
            assert(canonical(args.pk.fixed_cosets@[c].values@[k]));
        }
    }
    assert forall|c: int, r: int| elem(#[trigger] (env.advice)(c, r)) by {
        let k = at(r);
        if 0 <= c < t.advice.len() && 0 <= k < t.advice[c].len() {
            lemma_extended_elem(domain, table_vals(args.advice_polys@[i]@)[c], k);
        }
    }
    assert forall|c: int, r: int| elem(#[trigger] (env.instance)(c, r)) by {
        let k = at(r);
        if 0 <= c < t.instance.len() && 0 <= k < t.instance[c].len() {
            lemma_extended_elem(domain, table_vals(args.instance_polys@[i]@)[c], k);
        }
    }
    assert forall|j: int| elem(#[trigger] (env.challenges)(j)) by {
        if 0 <= j < args.challenges@.len() {
            assert(canonical(args.challenges@[j]));
        }
    }
}

pub proof fn lemma_extended_elem(domain: EvaluationDomain, p: Seq<int>, k: int)
    requires
        0 <= k < domain.extend(p).len(),
    ensures
        elem(domain.extend(p)[k]),
{
    lemma_modulus_bounds();
    reveal(dft_at);
}

/// A row's value is an integer of the field.
proof fn lemma_row_value_elem(ev: Evaluator, row: Row, chunk_len: int, v: int)
    requires
        ev.wf(),
        row.env.wf(),
        elem(v),
    ensures
        elem(row_value(ev, row, chunk_len, v)),
{
    lemma_field_ranges();
    lemma_modulus_bounds();
    lemma_previous_wf(row.env, v);
    let g = ev.custom_gates;
    let env = with_previous(row.env, v);
    lemma_results_elem(g, env, g.calculations@.len());
    lemma_results_len(g, env, g.calculations@.len());
    let v1 = gates_term(ev, row, v);
    assert(elem(v1));
    if row.z.len() > 0 {
        let e = ends_terms(row, row.z[0], row.z.last(), v1);
        lemma_links_elem(row, e, row.z.len());
        let l = link_terms(row, e, row.z.len());
        lemma_sets_elem(row, chunk_len, l, sets_in_use(row, chunk_len));
    }
    let v2 = permutation_term(row, chunk_len, v1);
    assert(elem(v2));
    let n = row.lookup_z.len();
    assert(elem(lookup_terms(ev, row, v2, n))) by {
        if n > 0 {
            reveal_with_fuel(lookup_terms, 2);
        }
    }
}

proof fn lemma_links_elem(row: Row, v: int, n: nat)
    requires
        elem(v),
    ensures
        elem(link_terms(row, v, n)),
    decreases n,
{
    lemma_field_ranges();
    if n > 1 {
        lemma_links_elem(row, v, (n - 1) as nat);
    }
}

proof fn lemma_sets_elem(row: Row, chunk_len: int, v: int, n: nat)
    requires
        elem(v),
    ensures
        elem(set_terms(row, chunk_len, v, n)),
    decreases n,
{
    lemma_field_ranges();
    if n > 0 {
        lemma_sets_elem(row, chunk_len, v, (n - 1) as nat);
    }
}

} // verus!
