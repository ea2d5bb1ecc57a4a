//! What is enough for a quotient to be computed, from the parts that it is computed from.

use halo2curves::bn256::Fr;
use vstd::arithmetic::mul::*;
use vstd::arithmetic::power2::*;
use vstd::prelude::*;

use crate::field::{canonical, fpow, modulus, val};
use crate::halo2::tiled::TileSpec;
use crate::plonk::circuit::{
    expr_wf, expr_within, rotation_fits_all, Any, ExpressionBack, Limits, Polynomial, VarBack,
};
use crate::plonk::evaluate::{
    coset_wf, largest, largest_of, lemma_largest_bounds, lemma_largest_of_bounds,
    lemma_small_power, EvaluationDomain, ProvingKey, QuotientArgs,
};
use crate::plonk::evaluation::expr_readable;
use crate::plonk::evaluator::{gate_polys, ConstraintSystemBack, Evaluator};
use crate::plonk::graph::{graph_fits, GraphEvaluator};

verus! {

/// A domain is in order as soon as the circuit's rows are no more than the extended ones, those
/// are fewer than `2^31`, and the root is a reduced element whose power by half the order is
/// minus one.
pub proof fn law_domain_in_order(domain: EvaluationDomain)
    requires
        domain.k <= domain.extended_k < 31,
        canonical(domain.extended_omega),
        domain.extended_k > 0 ==> fpow(
            val(domain.extended_omega),
            pow2((domain.extended_k - 1) as nat),
        ) == modulus() - 1,
    ensures
        domain.wf(),
{
    lemma2_to64();
    if domain.extended_k > 0 {
        lemma_pow2_unfold(domain.extended_k as nat);
    }
}

/// A key is in order as soon as its domain is, every coset has a reduced value for each row of
/// the extended domain, and there is a coset for each column of the permutation. The degree has
/// no say in it.
pub proof fn law_key_in_order(pk: ProvingKey)
    requires
        pk.vk.domain.wf(),
        forall|p: Polynomial|
            pk.fixed_cosets@.contains(p) || pk.permutation_cosets@.contains(p) || p == pk.l0 || p
                == pk.l_last || p == pk.l_active_row ==> (#[trigger] p.values@).len() == pow2(
                pk.vk.domain.extended_k as nat,
            ) && forall|i: int|
                0 <= i < p.values@.len() ==> canonical(#[trigger] p.values@[i]),
        pk.permutation_cosets@.len() == pk.vk.cs.permutation@.len(),
        pk.vk.cs.blinding_factors < i32::MAX,
    ensures
        pk.wf(),
{
    let size = pk.vk.domain.size();
    assert(coset_wf(pk.l0, size)) by {
        assert(pk.l0.values@.len() == size);
    }
    assert(coset_wf(pk.l_last, size)) by {
        assert(pk.l_last.values@.len() == size);
    }
    assert(coset_wf(pk.l_active_row, size)) by {
        assert(pk.l_active_row.values@.len() == size);
    }
    assert forall|j: int| 0 <= j < pk.fixed_cosets@.len() implies coset_wf(
        #[trigger] pk.fixed_cosets@[j],
        size,
    ) by {
        let p = pk.fixed_cosets@[j];
        assert(pk.fixed_cosets@.contains(p));
        assert(p.values@.len() == size);
    }
    assert forall|j: int| 0 <= j < pk.permutation_cosets@.len() implies coset_wf(
        #[trigger] pk.permutation_cosets@[j],
        size,
    ) by {
        let p = pk.permutation_cosets@[j];
        assert(pk.permutation_cosets@.contains(p));
        assert(p.values@.len() == size);
    }
}

/// Arguments are in order as soon as the key and the evaluator are, the single values are
/// reduced, and each instance has polynomials of as many reduced coefficients as the circuit has
/// rows, graphs for its lookups and shuffles, and the columns and challenges that the graphs and
/// the permutation look at; an instance with permutation sets needs a degree above two.
pub proof fn law_arguments_in_order(args: QuotientArgs, ev: Evaluator)
    requires
        ev.wf(),
        args.pk.wf(),
        forall|i: int| 0 <= i < args.challenges@.len() ==> canonical(#[trigger] args.challenges@[i]),
        canonical(args.y),
        canonical(args.beta),
        canonical(args.gamma),
        canonical(args.theta),
        forall|i: int, j: int, p: Polynomial|
            0 <= i < args.instances() && 0 <= j < args.fresh_polys(i).len() && p
                == #[trigger] args.fresh_polys(i)[j] ==> (#[trigger] p.values@).len() == pow2(
                args.pk.vk.domain.k as nat,
            ) && forall|q: int| 0 <= q < p.values@.len() ==> canonical(#[trigger] p.values@[q]),
        forall|i: int|
            0 <= i < args.instances() ==> {
                let lim = Limits {
                    fixed: args.pk.fixed_cosets@.len() as int,
                    advice: (#[trigger] args.advice_polys@[i])@.len() as int,
                    instance: args.instance_polys@[i]@.len() as int,
                    challenges: args.challenges@.len() as int,
                    rotation: 0x8000_0000,
                };
                &&& ev.within(lim)
                &&& args.lookups@[i]@.len() <= ev.lookups@.len()
                &&& 2 * args.shuffles@[i]@.len() <= ev.shuffles@.len()
                &&& args.permutations@[i].sets@.len() > 0 ==> args.pk.vk.cs.degree > 2
                    && forall|j: int|
                    0 <= j < args.pk.vk.cs.permutation@.len() ==> {
                        let c = #[trigger] args.pk.vk.cs.permutation@[j];
                        &&& c.column_type == Any::Fixed ==> c.index < lim.fixed
                        &&& c.column_type == Any::Advice ==> c.index < lim.advice
                        &&& c.column_type == Any::Instance ==> c.index < lim.instance
                    }
            },
    ensures
        args.wf(ev),
{
    let domain = args.pk.vk.domain;
    assert forall|i: int| 0 <= i < args.instances() implies #[trigger] args.instance_wf(ev, i) by {
        let polys = args.fresh_polys(i);
        assert forall|j: int| 0 <= j < polys.len() implies domain.poly_wf(#[trigger] polys[j]) by {
            let p = polys[j];
            assert(p == args.fresh_polys(i)[j]);
            assert(p.values@.len() == pow2(domain.k as nat));
        }
        let a = args.advice_polys@[i]@;
        let b = args.instance_polys@[i]@;
        let sets = args.permutations@[i].sets@;
        let lookups = args.lookups@[i]@;
        let shuffles = args.shuffles@[i]@;
        let n1 = a.len() as int;
        let n2 = n1 + b.len();
        let n3 = n2 + sets.len();
        let n4 = n3 + lookups.len();
        let n5 = n4 + lookups.len();
        let n6 = n5 + lookups.len();
        assert(polys.len() == n6 + shuffles.len());
        assert forall|j: int| 0 <= j < a.len() implies domain.poly_wf(#[trigger] a[j]) by {
            assert(polys[j] == a[j]);
        }
        assert forall|j: int| 0 <= j < b.len() implies domain.poly_wf(#[trigger] b[j]) by {
            assert(polys[n1 + j] == b[j]);
        }
        assert forall|j: int| 0 <= j < sets.len() implies domain.poly_wf(
            (#[trigger] sets[j]).permutation_product_poly,
        ) by {
            assert(polys[n2 + j] == sets[j].permutation_product_poly);
        }
        assert forall|j: int| 0 <= j < lookups.len() implies domain.poly_wf(
            (#[trigger] lookups[j]).product_poly,
        ) && domain.poly_wf(lookups[j].permuted_input_poly) && domain.poly_wf(
            lookups[j].permuted_table_poly,
        ) by {
            assert(polys[n3 + j] == lookups[j].product_poly);
            assert(polys[n4 + j] == lookups[j].permuted_input_poly);
            assert(polys[n5 + j] == lookups[j].permuted_table_poly);
        }
        assert forall|j: int| 0 <= j < shuffles.len() implies domain.poly_wf(
            (#[trigger] shuffles[j]).product_poly,
        ) by {
            assert(polys[n6 + j] == shuffles[j].product_poly);
        }
        assert(args.polys_wf(i));
        assert(args.advice_polys@[i]@.len() == a.len());
        let lim = args.limits(i, 0x8000_0000);
        assert forall|j: int|
            args.permutations@[i].sets@.len() > 0 && 0 <= j < args.pk.vk.cs.permutation@.len()
            implies lim.allows_column(#[trigger] args.pk.vk.cs.permutation@[j]) by {
            let c = args.pk.vk.cs.permutation@[j];
        }
        assert(args.graphs_fit(ev, i));
    }
}

/// What an expression needs: every constant reduced.
pub proof fn law_expression_in_order(e: ExpressionBack)
    ensures
        expr_wf(e) == (match e {
            ExpressionBack::Constant(c) => canonical(c),
            ExpressionBack::Var(_) => true,
            ExpressionBack::Negated(a) => expr_wf(*a),
            ExpressionBack::Sum(a, b) => expr_wf(*a) && expr_wf(*b),
            ExpressionBack::Product(a, b) => expr_wf(*a) && expr_wf(*b),
        }),
{
}

/// What an expression looks at: every column and challenge there, every rotation within bounds.
pub proof fn law_expression_within(e: ExpressionBack, lim: Limits)
    ensures
        expr_within(e, lim) == (match e {
            ExpressionBack::Constant(_) => true,
            ExpressionBack::Var(VarBack::Query(q)) => (match q.column.column_type {
                Any::Fixed => q.column.index < lim.fixed,
                Any::Advice => q.column.index < lim.advice,
                Any::Instance => q.column.index < lim.instance,
            }) && -lim.rotation <= q.rotation.0 <= lim.rotation,
            ExpressionBack::Var(VarBack::Challenge(c)) => c.index < lim.challenges,
            ExpressionBack::Negated(a) => expr_within(*a, lim),
            ExpressionBack::Sum(a, b) => expr_within(*a, lim) && expr_within(*b, lim),
            ExpressionBack::Product(a, b) => expr_within(*a, lim) && expr_within(*b, lim),
        }),
{
}

/// Every rotation of an instance can be counted in core as soon as none leads further than the
/// numbers of 32 bits reach from any row.
pub proof fn law_rows_fit(args: QuotientArgs, ev: Evaluator, far: int)
    requires
        args.pk.wf(),
        forall|g: GraphEvaluator, r: int|
            (g == ev.custom_gates || ev.lookups@.contains(g) || ev.shuffles@.contains(g)) && 0 <= r
                < g.rotations@.len() ==> -far <= #[trigger] g.rotations@[r] <= far,
        1 <= far,
        args.pk.vk.cs.blinding_factors + 1 <= far,
        pow2(args.pk.vk.domain.extended_k as nat) - 1 + far * pow2(
            (args.pk.vk.domain.extended_k - args.pk.vk.domain.k) as nat,
        ) <= i32::MAX,
        forall|i: int|
            0 <= i < args.instances() ==> (#[trigger] args.lookups@[i])@.len() <= ev.lookups@.len(),
        forall|i: int|
            0 <= i < args.instances() ==> 2 * (#[trigger] args.shuffles@[i])@.len()
                <= ev.shuffles@.len(),
    ensures
        args.rows_fit(ev),
{
    let domain = args.pk.vk.domain;
    let size = domain.size();
    let scale = domain.scale();
    lemma_small_power(domain.extended_k as nat);
    lemma_small_power((domain.extended_k - domain.k) as nat);
    assert forall|r: int| -far <= r <= far implies #[trigger] rotation_fits_all(
        0,
        size,
        r,
        scale,
    ) by {
        assert(-(far * scale) <= r * scale <= far * scale) by (nonlinear_arith)
            requires
                -far <= r <= far,
                0 < scale,
        ;
    }
    assert forall|g: GraphEvaluator|
        g == ev.custom_gates || ev.lookups@.contains(g) || ev.shuffles@.contains(
            g,
        ) implies #[trigger] graph_fits(g, 0, size, scale) by {
        assert forall|j: int| 0 <= j < g.rotations@.len() implies rotation_fits_all(
            0,
            size,
            #[trigger] g.rotations@[j] as int,
            scale,
        ) by {
            assert(-far <= g.rotations@[j] <= far);
        }
    }
    assert forall|i: int| 0 <= i < args.instances() implies #[trigger] args.instance_fits(ev, i) by {
        let uses = args.uses(i);
        assert(args.lookups@[i]@.len() <= ev.lookups@.len());
        assert(2 * args.shuffles@[i]@.len() <= ev.shuffles@.len());
        assert forall|n: int| 0 <= n < uses.lookups implies graph_fits(
            #[trigger] ev.lookups@[n],
            0,
            size,
            scale,
        ) by {
            assert(ev.lookups@.contains(ev.lookups@[n]));
        }
        assert forall|n: int| 0 <= n < 2 * uses.shuffles implies graph_fits(
            #[trigger] ev.shuffles@[n],
            0,
            size,
            scale,
        ) by {
            assert(ev.shuffles@.contains(ev.shuffles@[n]));
        }
        assert(rotation_fits_all(0, size, 1, scale));
        assert(rotation_fits_all(0, size, -1, scale));
        assert(rotation_fits_all(0, size, uses.last_rotation, scale));
        assert(graph_fits(ev.custom_gates, 0, size, scale));
    }
}

/// The largest of the rotations is no larger than any bound on them.
proof fn lemma_largest_at_most(rotations: Seq<i32>, far: int)
    requires
        0 <= far,
        forall|r: int| 0 <= r < rotations.len() ==> -far <= #[trigger] rotations[r] <= far,
    ensures
        largest(rotations) <= far,
    decreases rotations.len(),
{
    if rotations.len() > 0 {
        let rest = rotations.drop_last();
        assert forall|r: int| 0 <= r < rest.len() implies -far <= #[trigger] rest[r] <= far by {
            assert(rest[r] == rotations[r]);
        }
        lemma_largest_at_most(rest, far);
        assert(-far <= rotations[rotations.len() - 1] <= far);
    }
}

proof fn lemma_largest_of_at_most(graphs: Seq<GraphEvaluator>, far: int)
    requires
        0 <= far,
        forall|i: int| 0 <= i < graphs.len() ==> largest((#[trigger] graphs[i]).rotations@) <= far,
    ensures
        largest_of(graphs) <= far,
    decreases graphs.len(),
{
    if graphs.len() > 0 {
        let rest = graphs.drop_last();
        assert forall|i: int| 0 <= i < rest.len() implies largest(
            (#[trigger] rest[i]).rotations@,
        ) <= far by {
            assert(rest[i] == graphs[i]);
        }
        lemma_largest_of_at_most(rest, far);
        assert(largest(graphs[graphs.len() - 1].rotations@) <= far);
    }
}

/// Tiles of any size fit as soon as a tile, or the domain where the tile is larger, can be
/// counted together with two margins as wide as the furthest rotation.
pub proof fn law_tiles_fit(args: QuotientArgs, ev: Evaluator, far: int, tile: int)
    requires
        args.pk.wf(),
        forall|g: GraphEvaluator, r: int|
            (g == ev.custom_gates || ev.lookups@.contains(g) || ev.shuffles@.contains(g)) && 0 <= r
                < g.rotations@.len() ==> -far <= #[trigger] g.rotations@[r] <= far,
        1 <= far,
        args.pk.vk.cs.blinding_factors + 1 <= far,
        0 < tile,
        args.pk.vk.cs.degree >= 2,
        (if tile < pow2(args.pk.vk.domain.extended_k as nat) {
            tile
        } else {
            pow2(args.pk.vk.domain.extended_k as nat) as int
        }) + 2 * (far * pow2(
            (args.pk.vk.domain.extended_k - args.pk.vk.domain.k) as nat,
        )) <= i32::MAX,
    ensures
        args.tiles_fit(ev, tile),
{
    let scale = args.pk.vk.domain.scale();
    lemma_small_power((args.pk.vk.domain.extended_k - args.pk.vk.domain.k) as nat);
    assert forall|g: GraphEvaluator|
        g == ev.custom_gates || ev.lookups@.contains(g) || ev.shuffles@.contains(g) implies largest(
        #[trigger] g.rotations@,
    ) <= far by {
        assert forall|r: int| 0 <= r < g.rotations@.len() implies -far
            <= #[trigger] g.rotations@[r] <= far by {}
        lemma_largest_at_most(g.rotations@, far);
    }
    assert forall|i: int| 0 <= i < ev.lookups@.len() implies largest(
        (#[trigger] ev.lookups@[i]).rotations@,
    ) <= far by {
        assert(ev.lookups@.contains(ev.lookups@[i]));
    }
    assert forall|i: int| 0 <= i < ev.shuffles@.len() implies largest(
        (#[trigger] ev.shuffles@[i]).rotations@,
    ) <= far by {
        assert(ev.shuffles@.contains(ev.shuffles@[i]));
    }
    lemma_largest_of_at_most(ev.lookups@, far);
    lemma_largest_of_at_most(ev.shuffles@, far);
    assert(largest(ev.custom_gates.rotations@) <= far);
    let m = args.max_rotation(ev);
    assert(m <= far);
    lemma_mul_inequality(m, far, scale);
}

/// An expression can be evaluated at a row as soon as each of its queries finds its column, with
/// the row that the rotation leads to, and its challenges are there, and the numbers on the way
/// to the row have 32 bits.
pub proof fn law_expression_readable(
    e: ExpressionBack,
    idx: int,
    rot_scale: int,
    size: int,
    fixed: Seq<Polynomial>,
    advice: Seq<Polynomial>,
    instance: Seq<Polynomial>,
    challenges: Seq<Fr>,
)
    requires
        0 < size,
    ensures
        ({
            let can = |a: ExpressionBack|
                expr_readable(a, idx, rot_scale, size, fixed, advice, instance, challenges);
            can(e) == (match e {
                ExpressionBack::Constant(_) => true,
                ExpressionBack::Var(VarBack::Challenge(c)) => c.index < challenges.len(),
                ExpressionBack::Var(VarBack::Query(q)) => {
                    let t = match q.column.column_type {
                        Any::Fixed => fixed,
                        Any::Advice => advice,
                        Any::Instance => instance,
                    };
                    let by = q.rotation.0 * rot_scale;
                    &&& q.column.index < t.len()
                    &&& (idx + by) % size < t[q.column.index as int].values@.len()
                    &&& i32::MIN <= by <= i32::MAX
                    &&& i32::MIN <= idx + by <= i32::MAX
                },
                ExpressionBack::Negated(a) => can(*a),
                ExpressionBack::Sum(a, b) => can(*a) && can(*b),
                ExpressionBack::Product(a, b) => can(*a) && can(*b),
            })
        }),
{
}

/// The furthest rotation in use bounds every rotation that a term uses: those of the gates, and
/// where some instance has the argument, those of the lookups or the shuffles and their step to
/// the neighbouring rows, and the permutation's step to the last row in use.
pub proof fn law_furthest_rotation_covers(args: QuotientArgs, ev: Evaluator, i: int, n: int, r: int)
    ensures
        ({
            let far = args.max_rotation(ev);
            let (gates, lookups, shuffles) = (ev.custom_gates, ev.lookups@, ev.shuffles@);
            &&& 0 <= r < gates.rotations@.len() ==> -far <= gates.rotations@[r] <= far
            &&& 0 <= i < args.permutations@.len() && args.permutations@[i].sets@.len() > 0
                ==> args.pk.vk.cs.blinding_factors + 1 <= far
            &&& 0 <= i < args.lookups@.len() && args.lookups@[i]@.len() > 0 ==> {
                &&& 1 <= far
                &&& 0 <= n < lookups.len() && 0 <= r < lookups[n].rotations@.len() ==> -far
                    <= lookups[n].rotations@[r] <= far
            }
            &&& 0 <= i < args.shuffles@.len() && args.shuffles@[i]@.len() > 0 ==> {
                &&& 1 <= far
                &&& 0 <= n < shuffles.len() && 0 <= r < shuffles[n].rotations@.len() ==> -far
                    <= shuffles[n].rotations@[r] <= far
            }
        }),
{
    if 0 <= r < ev.custom_gates.rotations@.len() {
        lemma_largest_bounds(ev.custom_gates.rotations@, r);
    }
    if 0 <= i < args.permutations@.len() && args.permutations@[i].sets@.len() > 0 {
        assert(args.has_permutation());
    }
    if 0 <= i < args.lookups@.len() && args.lookups@[i]@.len() > 0 {
        assert(args.has_lookup());
        if 0 <= n < ev.lookups@.len() && 0 <= r < ev.lookups@[n].rotations@.len() {
            lemma_largest_of_bounds(ev.lookups@, n);
            lemma_largest_bounds(ev.lookups@[n].rotations@, r);
        }
    }
    if 0 <= i < args.shuffles@.len() && args.shuffles@[i]@.len() > 0 {
        assert(args.has_shuffle());
        if 0 <= n < ev.shuffles@.len() && 0 <= r < ev.shuffles@[n].rotations@.len() {
            lemma_largest_of_bounds(ev.shuffles@, n);
            lemma_largest_bounds(ev.shuffles@[n].rotations@, r);
        }
    }
}

/// And it is the least such bound: it is no larger than any number that bounds them all.
pub proof fn law_furthest_rotation_is_least(args: QuotientArgs, ev: Evaluator, far: int)
    requires
        0 <= far,
        forall|r: int|
            0 <= r < ev.custom_gates.rotations@.len() ==> -far
                <= #[trigger] ev.custom_gates.rotations@[r] <= far,
        (exists|i: int|
            0 <= i < args.permutations@.len() && (#[trigger] args.permutations@[i]).sets@.len() > 0)
            ==> args.pk.vk.cs.blinding_factors + 1 <= far,
        (exists|i: int| 0 <= i < args.lookups@.len() && (#[trigger] args.lookups@[i])@.len() > 0)
            ==> 1 <= far && forall|n: int, r: int|
            0 <= n < ev.lookups@.len() && 0 <= r < ev.lookups@[n].rotations@.len() ==> -far
                <= #[trigger] ev.lookups@[n].rotations@[r] <= far,
        (exists|i: int| 0 <= i < args.shuffles@.len() && (#[trigger] args.shuffles@[i])@.len() > 0)
            ==> 1 <= far && forall|n: int, r: int|
            0 <= n < ev.shuffles@.len() && 0 <= r < ev.shuffles@[n].rotations@.len() ==> -far
                <= #[trigger] ev.shuffles@[n].rotations@[r] <= far,
    ensures
        args.max_rotation(ev) <= far,
{
    lemma_largest_at_most(ev.custom_gates.rotations@, far);
    if args.has_lookup() {
        assert forall|n: int| 0 <= n < ev.lookups@.len() implies largest(
            (#[trigger] ev.lookups@[n]).rotations@,
        ) <= far by {
            assert forall|r: int| 0 <= r < ev.lookups@[n].rotations@.len() implies -far
                <= #[trigger] ev.lookups@[n].rotations@[r] <= far by {}
            lemma_largest_at_most(ev.lookups@[n].rotations@, far);
        }
        lemma_largest_of_at_most(ev.lookups@, far);
    }
    if args.has_shuffle() {
        assert forall|n: int| 0 <= n < ev.shuffles@.len() implies largest(
            (#[trigger] ev.shuffles@[n]).rotations@,
        ) <= far by {
            assert forall|r: int| 0 <= r < ev.shuffles@[n].rotations@.len() implies -far
                <= #[trigger] ev.shuffles@[n].rotations@[r] <= far by {}
            lemma_largest_at_most(ev.shuffles@[n].rotations@, far);
        }
        lemma_largest_of_at_most(ev.shuffles@, far);
    }
}

/// The tiling of a quotient: the extended domain, its rows to a row of the circuit, and a margin
/// of the furthest rotation in use, counted in extended rows.
pub proof fn law_tiling(args: QuotientArgs, ev: Evaluator, spec: TileSpec)
    requires
        args.pk.wf(),
        args.is_tiling(ev, spec),
    ensures
        spec.size == pow2(args.pk.vk.domain.extended_k as nat),
        spec.rot_scale == pow2((args.pk.vk.domain.extended_k - args.pk.vk.domain.k) as nat),
        spec.halo == args.max_rotation(ev) * spec.rot_scale,
{
}

/// A constraint system can be compiled as soon as the constants of its expressions are reduced,
/// and stays within bounds as soon as every one of its expressions does.
pub proof fn law_system_in_order(cs: ConstraintSystemBack, lim: Limits)
    ensures
        (forall|e: ExpressionBack| #[trigger] part_of(e, cs) ==> expr_wf(e)) ==> cs.wf(),
        (forall|e: ExpressionBack| #[trigger] part_of(e, cs) ==> expr_within(e, lim))
            ==> cs.within(lim),
{
    let polys = gate_polys(cs.gates@);
    assert forall|i: int| 0 <= i < polys.len() implies part_of(#[trigger] polys[i], cs) by {
        assert(cs.gates@[i].poly == polys[i]);
    }
    assert forall|i: int, j: int|
        0 <= i < cs.lookups@.len() && 0 <= j < cs.lookups@[i].input_expressions@.len() implies
        part_of(#[trigger] cs.lookups@[i].input_expressions@[j], cs) by {}
    assert forall|i: int, j: int|
        0 <= i < cs.lookups@.len() && 0 <= j < cs.lookups@[i].table_expressions@.len() implies
        part_of(#[trigger] cs.lookups@[i].table_expressions@[j], cs) by {}
    assert forall|i: int, j: int|
        0 <= i < cs.shuffles@.len() && 0 <= j < cs.shuffles@[i].input_expressions@.len() implies
        part_of(#[trigger] cs.shuffles@[i].input_expressions@[j], cs) by {}
    assert forall|i: int, j: int|
        0 <= i < cs.shuffles@.len() && 0 <= j < cs.shuffles@[i].shuffle_expressions@.len() implies
        part_of(#[trigger] cs.shuffles@[i].shuffle_expressions@[j], cs) by {}
}

/// The expression is a gate of the system, or one of the expressions of its lookups or shuffles.
pub open spec fn part_of(e: ExpressionBack, cs: ConstraintSystemBack) -> bool {
    ||| exists|i: int| 0 <= i < cs.gates@.len() && (#[trigger] cs.gates@[i]).poly == e
    ||| exists|i: int|
        0 <= i < cs.lookups@.len() && ((#[trigger] cs.lookups@[i]).input_expressions@.contains(e)
            || cs.lookups@[i].table_expressions@.contains(e))
    ||| exists|i: int|
        0 <= i < cs.shuffles@.len() && ((#[trigger] cs.shuffles@[i]).input_expressions@.contains(e)
            || cs.shuffles@[i].shuffle_expressions@.contains(e))
}

} // verus!
