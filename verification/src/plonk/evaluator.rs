//! The evaluator of a constraint system: its gates, lookups and shuffles as graphs.

use vstd::prelude::*;

use crate::field::{fadd, fmul};
use crate::plonk::circuit::{
    expr_value, expr_wf, expr_within, ColumnMid, Env, ExpressionBack, Limits,
};
use crate::plonk::graph::{
    added, calc_value, each_source, extends, graph_within, handle, has_calc, horner_value,
    lemma_calc_added, lemma_extends_trans, lemma_plain_trans, lemma_results_len,
    lemma_value_extend, plain_calc, plain_from, plain_source, same_calc, source_values,
    source_within, Calculation, GraphEvaluator, ValueSource,
};

verus! {

/// A custom gate.
#[derive(Debug)]
pub struct GateBack {
    pub poly: ExpressionBack,
}

/// A lookup argument: the input expressions take values of the table expressions.
#[derive(Debug)]
pub struct LookupArgument {
    pub input_expressions: Vec<ExpressionBack>,
    pub table_expressions: Vec<ExpressionBack>,
}

/// A shuffle argument: the shuffle expressions take the values of the input expressions in
/// another order.
#[derive(Debug)]
pub struct ShuffleArgument {
    pub input_expressions: Vec<ExpressionBack>,
    pub shuffle_expressions: Vec<ExpressionBack>,
}

/// A constraint system, as far as the quotient needs it.
#[derive(Debug)]
pub struct ConstraintSystemBack {
    pub gates: Vec<GateBack>,
    pub lookups: Vec<LookupArgument>,
    pub shuffles: Vec<ShuffleArgument>,
    /// The columns of the permutation argument.
    pub permutation: Vec<ColumnMid>,
    pub blinding_factors: usize,
    pub degree: usize,
}

/// The expressions of gates.
pub open spec fn gate_polys(gates: Seq<GateBack>) -> Seq<ExpressionBack> {
    Seq::new(gates.len(), |i: int| gates[i].poly)
}

pub open spec fn exprs_wf(e: Seq<ExpressionBack>) -> bool {
    forall|i: int| 0 <= i < e.len() ==> expr_wf(#[trigger] e[i])
}

pub open spec fn exprs_within(e: Seq<ExpressionBack>, lim: Limits) -> bool {
    forall|i: int| 0 <= i < e.len() ==> expr_within(#[trigger] e[i], lim)
}

/// The values of expressions.
pub open spec fn expr_values(e: Seq<ExpressionBack>, env: Env) -> Seq<int> {
    Seq::new(e.len(), |i: int| expr_value(e[i], env))
}

/// Expressions compressed to one value by powers of theta.
pub open spec fn compressed(e: Seq<ExpressionBack>, env: Env) -> int {
    horner_value(0, expr_values(e, env), env.theta, e.len())
}

/// The value of a row with the gates folded in by powers of `y`.
pub open spec fn gates_value(gates: Seq<GateBack>, env: Env) -> int {
    horner_value(env.previous, expr_values(gate_polys(gates), env), env.y, gates.len())
}

/// `(input + beta) * (table + gamma)`, both compressed.
pub open spec fn lookup_value(l: LookupArgument, env: Env) -> int {
    fmul(
        fadd(compressed(l.input_expressions@, env), env.beta),
        fadd(compressed(l.table_expressions@, env), env.gamma),
    )
}

/// Compressed expressions plus gamma.
pub open spec fn shuffle_value(e: Seq<ExpressionBack>, env: Env) -> int {
    fadd(compressed(e, env), env.gamma)
}

impl ConstraintSystemBack {
    /// Every constant is in reduced form.
    pub open spec fn wf(&self) -> bool {
        &&& exprs_wf(gate_polys(self.gates@))
        &&& forall|i: int|
            0 <= i < self.lookups@.len() ==> exprs_wf(
                (#[trigger] self.lookups@[i]).input_expressions@,
            ) && exprs_wf(self.lookups@[i].table_expressions@)
        &&& forall|i: int|
            0 <= i < self.shuffles@.len() ==> exprs_wf(
                (#[trigger] self.shuffles@[i]).input_expressions@,
            ) && exprs_wf(self.shuffles@[i].shuffle_expressions@)
    }

    /// Every expression stays within the bounds.
    pub open spec fn within(&self, lim: Limits) -> bool {
        &&& exprs_within(gate_polys(self.gates@), lim)
        &&& forall|i: int|
            0 <= i < self.lookups@.len() ==> exprs_within(
                (#[trigger] self.lookups@[i]).input_expressions@,
                lim,
            ) && exprs_within(self.lookups@[i].table_expressions@, lim)
        &&& forall|i: int|
            0 <= i < self.shuffles@.len() ==> exprs_within(
                (#[trigger] self.shuffles@[i]).input_expressions@,
                lim,
            ) && exprs_within(self.shuffles@[i].shuffle_expressions@, lim)
    }
}

/// What holds of a graph, and of the sources it handed out, once expressions have been added.
spec fn all_added(
    before: GraphEvaluator,
    g: GraphEvaluator,
    e: Seq<ExpressionBack>,
    parts: Seq<ValueSource>,
) -> bool {
    &&& g.wf()
    &&& extends(before, g)
    &&& plain_from(g, before.calculations@.len() as int)
    &&& parts.len() == e.len()
    &&& forall|i: int| 0 <= i < parts.len() ==> handle(g, #[trigger] parts[i])
    &&& forall|env: Env, i: int| #![trigger g.value(parts[i], env)]
        env.wf() && 0 <= i < parts.len() ==> g.value(parts[i], env) == expr_value(e[i], env)
    &&& forall|lim: Limits|
        graph_within(before, lim) && exprs_within(e, lim) ==> #[trigger] graph_within(g, lim)
}

proof fn lemma_all_added_step(
    before: GraphEvaluator,
    g: GraphEvaluator,
    next: GraphEvaluator,
    e: Seq<ExpressionBack>,
    parts: Seq<ValueSource>,
    x: ExpressionBack,
    r: ValueSource,
)
    requires
        all_added(before, g, e, parts),
        added(g, next, x, r),
    ensures
        all_added(before, next, e.push(x), parts.push(r)),
{
    lemma_extends_trans(before, g, next);
    lemma_plain_trans(before, g, next);
    let e2 = e.push(x);
    let p2 = parts.push(r);
    assert forall|i: int| 0 <= i < p2.len() implies handle(next, #[trigger] p2[i]) by {
        if i < parts.len() {
            assert(handle(g, parts[i]));
        }
    }
    assert forall|env: Env, i: int| #![trigger next.value(p2[i], env)]
        env.wf() && 0 <= i < p2.len() implies next.value(p2[i], env) == expr_value(e2[i], env) by {
        if i < parts.len() {
            assert(handle(g, parts[i]));
            lemma_value_extend(g, next, parts[i], env);
            assert(g.value(parts[i], env) == expr_value(e[i], env));
        }
    }
    assert forall|lim: Limits|
        graph_within(before, lim) && exprs_within(
            e2,
            lim,
        ) implies #[trigger] graph_within(next, lim) by {
        assert forall|i: int| 0 <= i < e.len() implies expr_within(#[trigger] e[i], lim) by {
            assert(e2[i] == e[i]);
        }
        assert(e2[e.len() as int] == x);
        assert(graph_within(g, lim));
    }
}

/// Horner's rule over sources that stand for expressions.
proof fn lemma_horner_of_parts(
    before: GraphEvaluator,
    g: GraphEvaluator,
    e: Seq<ExpressionBack>,
    parts: Vec<ValueSource>,
    start: ValueSource,
    factor: ValueSource,
    env: Env,
)
    requires
        all_added(before, g, e, parts@),
        env.wf(),
    ensures
        calc_value(
            Calculation::Horner(start, parts, factor),
            g.scope(g.results(env, g.calculations@.len())),
            env,
        ) == horner_value(g.value(start, env), expr_values(e, env), g.value(factor, env), e.len()),
{
    let scope = g.scope(g.results(env, g.calculations@.len()));
    assert(source_values(parts@, scope, env) =~= expr_values(e, env)) by {
        assert forall|i: int| 0 <= i < e.len() implies source_values(parts@, scope, env)[i]
            == expr_values(e, env)[i] by {
            assert(g.value(parts@[i], env) == expr_value(e[i], env));
        }
    }
}

/// A graph whose last calculation was new ends in its result.
proof fn lemma_ends_in(g: GraphEvaluator, r: ValueSource, env: Env)
    requires
        g.wf(),
        g.calculations@.len() > 0,
        r == ValueSource::Intermediate((g.calculations@.len() - 1) as usize),
    ensures
        g.result(env) == g.value(r, env),
{
    lemma_results_len(g, env, g.calculations@.len());
    assert(g.calculations@.len() == g.num_intermediates);
}

/// Add expressions to a graph, in order.
fn add_expressions(graph: &mut GraphEvaluator, exprs: &Vec<ExpressionBack>) -> (parts: Vec<
    ValueSource,
>)
    requires
        old(graph).wf(),
        exprs_wf(exprs@),
    ensures
        all_added(*old(graph), *final(graph), exprs@, parts@),
{
    let mut parts: Vec<ValueSource> = Vec::with_capacity(exprs.len());
    let ghost before = *graph;
    assert(exprs@.take(0) =~= Seq::<ExpressionBack>::empty());
    for i in 0..exprs.len()
        invariant
            exprs_wf(exprs@),
            all_added(before, *graph, exprs@.take(i as int), parts@),
    {
        let ghost g = *graph;
        let ghost p = parts@;
        let r = graph.add_expression(&exprs[i]);
        parts.push(r);
        proof {
            lemma_all_added_step(before, g, *graph, exprs@.take(i as int), p, exprs@[i as int], r);
            assert(exprs@.take(i as int).push(exprs@[i as int]) =~= exprs@.take(i + 1));
        }
    }
    assert(exprs@.take(exprs@.len() as int) =~= exprs@);
    parts
}

/// A calculation that takes neither beta nor gamma.
pub open spec fn unblinded(c: Calculation) -> bool {
    each_source(c, |s: ValueSource| s != ValueSource::Beta() && s != ValueSource::Gamma())
}

/// Every calculation takes neither beta nor gamma.
pub open spec fn all_unblinded(g: GraphEvaluator) -> bool {
    forall|i: int|
        0 <= i < g.calculations@.len() ==> unblinded((#[trigger] g.calculations@[i]).calculation)
}

proof fn lemma_plain_unblinded(c: Calculation)
    requires
        plain_calc(c),
    ensures
        unblinded(c),
{
    let p = |s: ValueSource| plain_source(s);
    match c {
        Calculation::Add(a, b) => {
            assert(p(a) && p(b));
        },
        Calculation::Sub(a, b) => {
            assert(p(a) && p(b));
        },
        Calculation::Mul(a, b) => {
            assert(p(a) && p(b));
        },
        Calculation::Square(a) => {
            assert(p(a));
        },
        Calculation::Double(a) => {
            assert(p(a));
        },
        Calculation::Negate(a) => {
            assert(p(a));
        },
        Calculation::Horner(_, _, _) => {},
        Calculation::Store(a) => {
            assert(p(a));
        },
    }
}

/// Add expressions to a graph and compress them by powers of theta.
fn compress(graph: &mut GraphEvaluator, exprs: &Vec<ExpressionBack>) -> (r: ValueSource)
    requires
        old(graph).wf(),
        all_unblinded(*old(graph)),
        exprs_wf(exprs@),
    ensures
        final(graph).wf(),
        all_unblinded(*final(graph)),
        extends(*old(graph), *final(graph)),
        handle(*final(graph), r),
        forall|env: Env|
            env.wf() ==> #[trigger] final(graph).value(r, env) == compressed(exprs@, env),
        forall|lim: Limits|
            graph_within(*old(graph), lim) && exprs_within(
                exprs@,
                lim,
            ) ==> #[trigger] graph_within(*final(graph), lim),
{
    let ghost before = *graph;
    let parts = add_expressions(graph, exprs);
    let ghost mid = *graph;
    let ghost calc = Calculation::Horner(ValueSource::Constant(0), parts, ValueSource::Theta());
    proof {
        assert forall|i: int| 0 <= i < parts@.len() implies mid.knows(
            #[trigger] parts@[i],
            mid.calculations@.len() as int,
        ) by {
            assert(handle(mid, parts@[i]));
        }
    }
    let r = graph.add_calculation(
        Calculation::Horner(ValueSource::Constant(0), parts, ValueSource::Theta()),
    );
    proof {
        lemma_extends_trans(before, mid, *graph);
        lemma_calc_added(mid, *graph, calc);
        assert forall|env: Env| env.wf() implies #[trigger] graph.value(r, env) == compressed(
            exprs@,
            env,
        ) by {
            lemma_horner_of_parts(
                before,
                mid,
                exprs@,
                parts,
                ValueSource::Constant(0),
                ValueSource::Theta(),
                env,
            );
        }
        assert forall|lim: Limits|
            graph_within(before, lim) && exprs_within(
                exprs@,
                lim,
            ) implies #[trigger] graph_within(*graph, lim) by {
            assert(graph_within(mid, lim));
            assert forall|i: int| 0 <= i < parts@.len() implies source_within(
                #[trigger] parts@[i],
                lim,
            ) by {
                assert(handle(mid, parts@[i]));
            }
        }
        assert forall|i: int| 0 <= i < graph.calculations@.len() implies unblinded(
            (#[trigger] graph.calculations@[i]).calculation,
        ) by {
            if i < before.calculations@.len() {
                assert(before.calculations@[i] == graph.calculations@[i]);
            } else if i < mid.calculations@.len() {
                assert(mid.calculations@[i] == graph.calculations@[i]);
                lemma_plain_unblinded(mid.calculations@[i].calculation);
            } else {
                assert(graph.calculations@[i].calculation == calc);
                assert forall|j: int| 0 <= j < parts@.len() implies #[trigger] parts@[j]
                    != ValueSource::Beta() && parts@[j] != ValueSource::Gamma() by {
                    assert(handle(mid, parts@[j]));
                }
            }
        }
    }
    r
}

/// The graph of a lookup.
fn lookup_graph(lookup: &LookupArgument) -> (graph: GraphEvaluator)
    requires
        exprs_wf(lookup.input_expressions@),
        exprs_wf(lookup.table_expressions@),
    ensures
        graph.wf(),
        forall|env: Env| env.wf() ==> #[trigger] graph.result(env) == lookup_value(*lookup, env),
        forall|lim: Limits|
            exprs_within(lookup.input_expressions@, lim) && exprs_within(
                lookup.table_expressions@,
                lim,
            ) ==> #[trigger] graph_within(graph, lim),
{
    let mut graph: GraphEvaluator = GraphEvaluator::default();
    let ghost g0 = graph;
    let input = compress(&mut graph, &lookup.input_expressions);
    let ghost g1 = graph;
    let table = compress(&mut graph, &lookup.table_expressions);
    let ghost g2 = graph;
    let ghost c_right = Calculation::Add(table, ValueSource::Gamma());
    assert(!has_calc(g2, c_right)) by {
        assert forall|i: int| 0 <= i < g2.calculations@.len() implies !same_calc(
            (#[trigger] g2.calculations@[i]).calculation,
            c_right,
        ) by {
            assert(unblinded(g2.calculations@[i].calculation));
        }
    }
    let right_gamma = graph.add_calculation(Calculation::Add(table, ValueSource::Gamma()));
    let ghost g3 = graph;
    let ghost c_left = Calculation::Add(input, ValueSource::Beta());
    assert(!has_calc(g3, c_left)) by {
        assert forall|i: int| 0 <= i < g3.calculations@.len() implies !same_calc(
            (#[trigger] g3.calculations@[i]).calculation,
            c_left,
        ) by {
            if i < g2.calculations@.len() {
                assert(g2.calculations@[i] == g3.calculations@[i]);
                assert(unblinded(g2.calculations@[i].calculation));
            }
        }
    }
    let lc = graph.add_calculation(Calculation::Add(input, ValueSource::Beta()));
    let ghost g4 = graph;
    let ghost c_mul = Calculation::Mul(lc, right_gamma);
    assert(!has_calc(g4, c_mul)) by {
        assert forall|i: int| 0 <= i < g4.calculations@.len() implies !same_calc(
            (#[trigger] g4.calculations@[i]).calculation,
            c_mul,
        ) by {
            let p = |s: ValueSource| g4.knows(s, i);
            assert(each_source(g4.calculations@[i].calculation, p));
            if same_calc(g4.calculations@[i].calculation, c_mul) {
                assert(p(lc));
            }
        }
    }
    let r = graph.add_calculation(Calculation::Mul(lc, right_gamma));
    proof {
        lemma_calc_added(g2, g3, c_right);
        lemma_calc_added(g3, g4, c_left);
        lemma_calc_added(g4, graph, c_mul);
        lemma_extends_trans(g1, g2, g3);
        assert forall|env: Env| env.wf() implies #[trigger] graph.result(env) == lookup_value(
            *lookup,
            env,
        ) by {
            lemma_ends_in(graph, r, env);
            lemma_value_extend(g1, g3, input, env);
            lemma_value_extend(g3, g4, right_gamma, env);
            assert(g1.value(input, env) == compressed(lookup.input_expressions@, env));
            assert(g2.value(table, env) == compressed(lookup.table_expressions@, env));
            assert(g3.value(right_gamma, env) == fadd(g2.value(table, env), env.gamma));
            assert(g4.value(lc, env) == fadd(g3.value(input, env), env.beta));
            assert(graph.value(r, env) == fmul(g4.value(lc, env), g4.value(right_gamma, env)));
        }
        assert forall|lim: Limits|
            exprs_within(lookup.input_expressions@, lim) && exprs_within(
                lookup.table_expressions@,
                lim,
            ) implies #[trigger] graph_within(graph, lim) by {
            assert(graph_within(g0, lim));
            assert(graph_within(g1, lim));
            assert(graph_within(g2, lim));
            assert(graph_within(g3, lim));
            assert(graph_within(g4, lim));
        }
    }
    graph
}

/// The graph of one side of a shuffle.
fn shuffle_graph(exprs: &Vec<ExpressionBack>) -> (graph: GraphEvaluator)
    requires
        exprs_wf(exprs@),
    ensures
        graph.wf(),
        forall|env: Env| env.wf() ==> #[trigger] graph.result(env) == shuffle_value(exprs@, env),
        forall|lim: Limits| exprs_within(exprs@, lim) ==> #[trigger] graph_within(graph, lim),
{
    let mut graph: GraphEvaluator = GraphEvaluator::default();
    let ghost g0 = graph;
    let side = compress(&mut graph, exprs);
    let ghost g1 = graph;
    let ghost calc = Calculation::Add(side, ValueSource::Gamma());
    assert(!has_calc(g1, calc)) by {
        assert forall|i: int| 0 <= i < g1.calculations@.len() implies !same_calc(
            (#[trigger] g1.calculations@[i]).calculation,
            calc,
        ) by {
            assert(unblinded(g1.calculations@[i].calculation));
        }
    }
    let r = graph.add_calculation(Calculation::Add(side, ValueSource::Gamma()));
    proof {
        lemma_calc_added(g1, graph, calc);
        assert forall|env: Env| env.wf() implies #[trigger] graph.result(env) == shuffle_value(
            exprs@,
            env,
        ) by {
            lemma_ends_in(graph, r, env);
            assert(g1.value(side, env) == compressed(exprs@, env));
            assert(graph.value(r, env) == fadd(g1.value(side, env), env.gamma));
        }
        assert forall|lim: Limits|
            exprs_within(exprs@, lim) implies #[trigger] graph_within(graph, lim) by {
            assert(graph_within(g0, lim));
            assert(graph_within(g1, lim));
        }
    }
    graph
}

/// The graph of the custom gates.
fn gates_graph(gates: &Vec<GateBack>) -> (graph: GraphEvaluator)
    requires
        exprs_wf(gate_polys(gates@)),
    ensures
        graph.wf(),
        forall|env: Env| env.wf() ==> #[trigger] graph.result(env) == gates_value(gates@, env),
        forall|lim: Limits|
            exprs_within(gate_polys(gates@), lim) ==> #[trigger] graph_within(graph, lim),
{
    let mut graph: GraphEvaluator = GraphEvaluator::default();
    let mut parts: Vec<ValueSource> = Vec::with_capacity(gates.len());
    let ghost g0 = graph;
    let ghost polys = gate_polys(gates@);
    assert(polys.take(0) =~= Seq::<ExpressionBack>::empty());
    for i in 0..gates.len()
        invariant
            polys == gate_polys(gates@),
            exprs_wf(polys),
            all_added(g0, graph, polys.take(i as int), parts@),
    {
        let ghost g = graph;
        let ghost p = parts@;
        assert(expr_wf(polys[i as int]));
        let r = graph.add_expression(&gates[i].poly);
        parts.push(r);
        proof {
            lemma_all_added_step(g0, g, graph, polys.take(i as int), p, polys[i as int], r);
            assert(polys.take(i as int).push(polys[i as int]) =~= polys.take(i + 1));
        }
    }
    assert(polys.take(gates@.len() as int) =~= polys);
    let ghost g1 = graph;
    let ghost calc = Calculation::Horner(ValueSource::PreviousValue(), parts, ValueSource::Y());
    proof {
        assert forall|i: int| 0 <= i < parts@.len() implies g1.knows(
            #[trigger] parts@[i],
            g1.calculations@.len() as int,
        ) by {
            assert(handle(g1, parts@[i]));
        }
        assert(!has_calc(g1, calc)) by {
            assert forall|i: int| 0 <= i < g1.calculations@.len() implies !same_calc(
                (#[trigger] g1.calculations@[i]).calculation,
                calc,
            ) by {
                assert(plain_calc(g1.calculations@[i].calculation));
            }
        }
    }
    let r = graph.add_calculation(
        Calculation::Horner(ValueSource::PreviousValue(), parts, ValueSource::Y()),
    );
    proof {
        lemma_calc_added(g1, graph, calc);
        assert forall|env: Env| env.wf() implies #[trigger] graph.result(env) == gates_value(
            gates@,
            env,
        ) by {
            lemma_ends_in(graph, r, env);
            lemma_horner_of_parts(
                g0,
                g1,
                polys,
                parts,
                ValueSource::PreviousValue(),
                ValueSource::Y(),
                env,
            );
            assert(graph.value(r, env) == calc_value(
                calc,
                g1.scope(g1.results(env, g1.calculations@.len())),
                env,
            ));
        }
        assert forall|lim: Limits|
            exprs_within(polys, lim) implies #[trigger] graph_within(graph, lim) by {
            assert(graph_within(g0, lim));
            assert(graph_within(g1, lim));
            assert forall|i: int| 0 <= i < parts@.len() implies source_within(
                #[trigger] parts@[i],
                lim,
            ) by {
                assert(handle(g1, parts@[i]));
            }
        }
    }
    graph
}

/// The graphs of a constraint system.
#[derive(Debug)]
pub struct Evaluator {
    /// The custom gates.
    pub custom_gates: GraphEvaluator,
    /// One graph for each lookup.
    pub lookups: Vec<GraphEvaluator>,
    /// Two graphs for each shuffle: the input side and the shuffle side.
    pub shuffles: Vec<GraphEvaluator>,
}

impl Evaluator {
    /// Every graph is in order.
    pub open spec fn wf(&self) -> bool {
        &&& self.custom_gates.wf()
        &&& forall|i: int| 0 <= i < self.lookups@.len() ==> (#[trigger] self.lookups@[i]).wf()
        &&& forall|i: int| 0 <= i < self.shuffles@.len() ==> (#[trigger] self.shuffles@[i]).wf()
    }

    /// Every graph stays within the bounds.
    pub open spec fn within(&self, lim: Limits) -> bool {
        &&& graph_within(self.custom_gates, lim)
        &&& forall|i: int|
            0 <= i < self.lookups@.len() ==> graph_within(#[trigger] self.lookups@[i], lim)
        &&& forall|i: int|
            0 <= i < self.shuffles@.len() ==> graph_within(#[trigger] self.shuffles@[i], lim)
    }

    /// The graphs compute what the constraint system says, on every row.
    pub open spec fn computes(&self, cs: ConstraintSystemBack) -> bool {
        &&& self.lookups@.len() == cs.lookups@.len()
        &&& self.shuffles@.len() == 2 * cs.shuffles@.len()
        &&& forall|env: Env| #![trigger self.custom_gates.result(env)]
            env.wf() ==> self.custom_gates.result(env) == gates_value(cs.gates@, env)
        &&& forall|env: Env, i: int| #![trigger self.lookups@[i].result(env)]
            env.wf() && 0 <= i < cs.lookups@.len() ==> self.lookups@[i].result(env)
                == lookup_value(cs.lookups@[i], env)
        &&& forall|env: Env, i: int| #![trigger self.shuffles@[2 * i].result(env)]
            env.wf() && 0 <= i < cs.shuffles@.len() ==> self.shuffles@[2 * i].result(env)
                == shuffle_value(cs.shuffles@[i].input_expressions@, env)
        &&& forall|env: Env, i: int| #![trigger self.shuffles@[2 * i + 1].result(env)]
            env.wf() && 0 <= i < cs.shuffles@.len() ==> self.shuffles@[2 * i + 1].result(env)
                == shuffle_value(cs.shuffles@[i].shuffle_expressions@, env)
    }

    /// The graphs of a constraint system.
    pub fn new(cs: &ConstraintSystemBack) -> (ev: Self)
        requires
            cs.wf(),
        ensures
            ev.wf(),
            ev.computes(*cs),
            forall|lim: Limits| cs.within(lim) ==> #[trigger] ev.within(lim),
    {
        let custom_gates = gates_graph(&cs.gates);
        let mut lookups: Vec<GraphEvaluator> = Vec::new();
        for i in 0..cs.lookups.len()
            invariant
                cs.wf(),
                lookups@.len() == i,
                forall|j: int| 0 <= j < i ==> (#[trigger] lookups@[j]).wf(),
                forall|env: Env, j: int| #![trigger lookups@[j].result(env)]
                    env.wf() && 0 <= j < i ==> lookups@[j].result(env) == lookup_value(
                        cs.lookups@[j],
                        env,
                    ),
                forall|lim: Limits, j: int| #![trigger graph_within(lookups@[j], lim)]
                    cs.within(lim) && 0 <= j < i ==> graph_within(lookups@[j], lim),
        {
            let graph = lookup_graph(&cs.lookups[i]);
            lookups.push(graph);
        }
        let mut shuffles: Vec<GraphEvaluator> = Vec::new();
        for i in 0..cs.shuffles.len()
            invariant
                cs.wf(),
                shuffles@.len() == 2 * i,
                forall|j: int| 0 <= j < 2 * i ==> (#[trigger] shuffles@[j]).wf(),
                forall|env: Env, j: int| #![trigger shuffles@[2 * j].result(env)]
                    env.wf() && 0 <= j < i ==> shuffles@[2 * j].result(env) == shuffle_value(
                        cs.shuffles@[j].input_expressions@,
                        env,
                    ),
                forall|env: Env, j: int| #![trigger shuffles@[2 * j + 1].result(env)]
                    env.wf() && 0 <= j < i ==> shuffles@[2 * j + 1].result(env) == shuffle_value(
                        cs.shuffles@[j].shuffle_expressions@,
                        env,
                    ),
                forall|lim: Limits, j: int| #![trigger graph_within(shuffles@[j], lim)]
                    cs.within(lim) && 0 <= j < 2 * i ==> graph_within(shuffles@[j], lim),
        {
            let graph_input = shuffle_graph(&cs.shuffles[i].input_expressions);
            let graph_shuffle = shuffle_graph(&cs.shuffles[i].shuffle_expressions);
            let ghost before = shuffles@;
            shuffles.push(graph_input);
            shuffles.push(graph_shuffle);
            proof {
                assert(shuffles@ =~= before.push(graph_input).push(graph_shuffle));
                assert forall|lim: Limits, j: int| #![trigger graph_within(shuffles@[j], lim)]
                    cs.within(lim) && 0 <= j < 2 * (i + 1) implies graph_within(
                    shuffles@[j],
                    lim,
                ) by {
                    if j < 2 * i {
                        assert(graph_within(before[j], lim));
                    }
                }
            }
        }
        Evaluator { custom_gates, lookups, shuffles }
    }
}

} // verus!
