use halo2curves::bn256::Fr;
use halo2curves::ff::{Field, PrimeField, WithSmallOrderMulGroup};
use halo2curves::fft::best_fft;
use snark_stream::interpolate::interpolate;
use snark_stream::plonk::bench::{bench_columns, wide_key};
use snark_stream::plonk::circuit::{
    get_rotation_idx, Any, ChallengeMid, ColumnMid, ExpressionBack, Polynomial, QueryBack,
    Rotation, VarBack,
};
use snark_stream::plonk::evaluate::{
    quotient_in_core, quotient_tiled, CommittedSet, EvaluationDomain, LookupCommitted, PermutationCommitted, ProvingKey,
    QuotientArgs, ShuffleCommitted, TileCursor, VerifyingKey,
};
use snark_stream::plonk::evaluation::{fingerprint, ss_bench_quotient};
use snark_stream::plonk::evaluator::{
    ConstraintSystemBack, Evaluator, GateBack, LookupArgument, ShuffleArgument,
};
use snark_stream::plonk::samples::wide_rows;
use snark_stream::plonk::spilled::{quotient_spilled, ReprCoset};

struct Rng(Fr);

impl Rng {
    fn next(&mut self) -> Fr {
        self.0 = self.0 * Fr::from(6364136223846793005u64) + Fr::from(1442695040888963407u64);
        self.0
    }

    fn poly(&mut self, n: usize) -> Polynomial {
        Polynomial {
            values: (0..n).map(|_| self.next()).collect(),
        }
    }

    fn polys(&mut self, count: usize, n: usize) -> Vec<Polynomial> {
        (0..count).map(|_| self.poly(n)).collect()
    }
}

fn column(column_type: Any, index: usize) -> ColumnMid {
    ColumnMid { index, column_type }
}

fn query(column_type: Any, index: usize, rotation: i32) -> ExpressionBack {
    ExpressionBack::Var(VarBack::Query(QueryBack {
        index: 0,
        column: column(column_type, index),
        rotation: Rotation(rotation),
    }))
}

fn challenge(index: usize) -> ExpressionBack {
    ExpressionBack::Var(VarBack::Challenge(ChallengeMid { index, phase: 0 }))
}

fn sum(a: ExpressionBack, b: ExpressionBack) -> ExpressionBack {
    ExpressionBack::Sum(Box::new(a), Box::new(b))
}

fn product(a: ExpressionBack, b: ExpressionBack) -> ExpressionBack {
    ExpressionBack::Product(Box::new(a), Box::new(b))
}

fn negated(a: ExpressionBack) -> ExpressionBack {
    ExpressionBack::Negated(Box::new(a))
}

/// Two gates over three kinds of columns and a challenge, a permutation over five columns in
/// sets of two, two lookups and a shuffle.
fn system() -> ConstraintSystemBack {
    ConstraintSystemBack {
        gates: vec![
            GateBack {
                poly: product(
                    query(Any::Fixed, 0, 0),
                    sum(
                        product(query(Any::Advice, 0, 0), query(Any::Advice, 1, 1)),
                        negated(query(Any::Advice, 2, -2)),
                    ),
                ),
            },
            GateBack {
                poly: sum(
                    product(challenge(0), query(Any::Instance, 0, 1)),
                    product(ExpressionBack::Constant(Fr::from(2)), query(Any::Fixed, 1, -1)),
                ),
            },
        ],
        lookups: vec![
            LookupArgument {
                input_expressions: vec![query(Any::Advice, 0, 0), query(Any::Advice, 1, 2)],
                table_expressions: vec![query(Any::Fixed, 0, 0), query(Any::Fixed, 1, 0)],
            },
            LookupArgument {
                input_expressions: vec![query(Any::Advice, 2, 0)],
                table_expressions: vec![query(Any::Advice, 2, 0)],
            },
        ],
        shuffles: vec![ShuffleArgument {
            input_expressions: vec![query(Any::Advice, 0, 0), query(Any::Fixed, 1, 1)],
            shuffle_expressions: vec![query(Any::Advice, 1, -1), query(Any::Advice, 2, 0)],
        }],
        permutation: vec![
            column(Any::Advice, 0),
            column(Any::Fixed, 1),
            column(Any::Instance, 0),
            column(Any::Advice, 2),
            column(Any::Advice, 1),
        ],
        blinding_factors: 2,
        degree: 4,
    }
}

fn proving_key(rng: &mut Rng, cs: ConstraintSystemBack, k: usize, extended_k: usize) -> ProvingKey {
    let size = 1usize << extended_k;
    let ev = Evaluator::new(&cs);
    let permutation_cosets = rng.polys(cs.permutation.len(), size);
    ProvingKey {
        vk: VerifyingKey {
            domain: EvaluationDomain {
                k,
                extended_k,
                extended_omega: Fr::ROOT_OF_UNITY.pow_vartime([1u64 << (Fr::S - extended_k as u32)]),
            },
            cs,
        },
        fixed_cosets: rng.polys(2, size),
        l0: rng.poly(size),
        l_last: rng.poly(size),
        l_active_row: rng.poly(size),
        permutation_cosets,
        ev,
    }
}

/// One instance's polynomials.
struct Instance {
    advice: Vec<Polynomial>,
    instance: Vec<Polynomial>,
    lookups: Vec<LookupCommitted>,
    shuffles: Vec<ShuffleCommitted>,
    permutation: PermutationCommitted,
}

fn instance(rng: &mut Rng, n: usize, lookups: usize, shuffles: usize, sets: usize) -> Instance {
    Instance {
        advice: rng.polys(3, n),
        instance: rng.polys(1, n),
        lookups: (0..lookups)
            .map(|_| LookupCommitted {
                product_poly: rng.poly(n),
                permuted_input_poly: rng.poly(n),
                permuted_table_poly: rng.poly(n),
            })
            .collect(),
        shuffles: (0..shuffles)
            .map(|_| ShuffleCommitted {
                product_poly: rng.poly(n),
            })
            .collect(),
        permutation: PermutationCommitted {
            sets: (0..sets)
                .map(|_| CommittedSet {
                    permutation_product_poly: rng.poly(n),
                })
                .collect(),
        },
    }
}

fn extend(domain: &EvaluationDomain, p: &Polynomial) -> Vec<Fr> {
    let zeta = <Fr as WithSmallOrderMulGroup<3>>::ZETA;
    let mut v: Vec<Fr> = p
        .values
        .iter()
        .enumerate()
        .map(|(i, c)| *c * zeta.pow_vartime([i as u64]))
        .collect();
    v.resize(1 << domain.extended_k, Fr::ZERO);
    best_fft(&mut v, domain.extended_omega, domain.extended_k as u32);
    v
}

struct Values {
    challenges: Vec<Fr>,
    y: Fr,
    beta: Fr,
    gamma: Fr,
    theta: Fr,
}

/// An expression at a row, straight from its definition.
fn at(
    e: &ExpressionBack,
    row: usize,
    scale: i32,
    fixed: &[Vec<Fr>],
    advice: &[Vec<Fr>],
    instance: &[Vec<Fr>],
    v: &Values,
) -> Fr {
    match e {
        ExpressionBack::Constant(c) => *c,
        ExpressionBack::Var(VarBack::Challenge(c)) => v.challenges[c.index],
        ExpressionBack::Var(VarBack::Query(q)) => {
            let t = match q.column.column_type {
                Any::Fixed => fixed,
                Any::Advice => advice,
                Any::Instance => instance,
            };
            let c = &t[q.column.index];
            c[(row as i32 + q.rotation.0 * scale).rem_euclid(c.len() as i32) as usize]
        }
        ExpressionBack::Negated(a) => -at(a, row, scale, fixed, advice, instance, v),
        ExpressionBack::Sum(a, b) => {
            at(a, row, scale, fixed, advice, instance, v)
                + at(b, row, scale, fixed, advice, instance, v)
        }
        ExpressionBack::Product(a, b) => {
            at(a, row, scale, fixed, advice, instance, v)
                * at(b, row, scale, fixed, advice, instance, v)
        }
    }
}

/// The quotient from the constraint system itself, term by term.
fn reference(pk: &ProvingKey, instances: &[Instance], v: &Values) -> Vec<Fr> {
    let domain = &pk.vk.domain;
    let cs = &pk.vk.cs;
    let size = 1usize << domain.extended_k;
    let scale = 1i32 << (domain.extended_k - domain.k);
    let rot = |row: usize, r: i32| (row as i32 + r * scale).rem_euclid(size as i32) as usize;
    let fixed: Vec<Vec<Fr>> = pk.fixed_cosets.iter().map(|p| p.values.clone()).collect();
    let (l0, ll, la) = (&pk.l0.values, &pk.l_last.values, &pk.l_active_row.values);
    let zeta = <Fr as WithSmallOrderMulGroup<3>>::ZETA;
    let y = v.y;

    let mut h = vec![Fr::ZERO; size];
    for inst in instances {
        let advice: Vec<Vec<Fr>> = inst.advice.iter().map(|p| extend(domain, p)).collect();
        let instance: Vec<Vec<Fr>> = inst.instance.iter().map(|p| extend(domain, p)).collect();
        let z: Vec<Vec<Fr>> = inst
            .permutation
            .sets
            .iter()
            .map(|s| extend(domain, &s.permutation_product_poly))
            .collect();
        for (row, h) in h.iter_mut().enumerate() {
            let ex = |e: &ExpressionBack| at(e, row, scale, &fixed, &advice, &instance, v);
            for g in &cs.gates {
                *h = *h * y + ex(&g.poly);
            }
            if !z.is_empty() {
                *h = *h * y + (Fr::ONE - z[0][row]) * l0[row];
                let last = z[z.len() - 1][row];
                *h = *h * y + (last * last - last) * ll[row];
                for s in 1..z.len() {
                    let r_last = rot(row, -(cs.blinding_factors as i32 + 1));
                    *h = *h * y + (z[s][row] - z[s - 1][r_last]) * l0[row];
                }
                let chunk = cs.degree - 2;
                let x = v.beta * zeta * domain.extended_omega.pow_vartime([row as u64]);
                let value = |c: &ColumnMid| match c.column_type {
                    Any::Fixed => fixed[c.index][row],
                    Any::Advice => advice[c.index][row],
                    Any::Instance => instance[c.index][row],
                };
                for (s, columns) in cs.permutation.chunks(chunk).enumerate().take(z.len()) {
                    let mut left = z[s][rot(row, 1)];
                    let mut right = z[s][row];
                    for (j, c) in columns.iter().enumerate() {
                        let j = s * chunk + j;
                        let sigma = pk.permutation_cosets[j].values[row];
                        left *= value(c) + v.beta * sigma + v.gamma;
                        right *= value(c) + x * Fr::DELTA.pow_vartime([j as u64]) + v.gamma;
                    }
                    *h = *h * y + (left - right) * la[row];
                }
            }
        }
        for (n, l) in inst.lookups.iter().enumerate() {
            let z = extend(domain, &l.product_poly);
            let a = extend(domain, &l.permuted_input_poly);
            let s = extend(domain, &l.permuted_table_poly);
            for (row, h) in h.iter_mut().enumerate() {
                let ex = |e: &ExpressionBack| at(e, row, scale, &fixed, &advice, &instance, v);
                let compress = |es: &[ExpressionBack]| {
                    es.iter().fold(Fr::ZERO, |acc, e| acc * v.theta + ex(e))
                };
                let table = (compress(&cs.lookups[n].input_expressions) + v.beta)
                    * (compress(&cs.lookups[n].table_expressions) + v.gamma);
                *h = *h * y + (Fr::ONE - z[row]) * l0[row];
                *h = *h * y + (z[row] * z[row] - z[row]) * ll[row];
                *h = *h * y
                    + (z[rot(row, 1)] * (a[row] + v.beta) * (s[row] + v.gamma) - z[row] * table)
                        * la[row];
                *h = *h * y + (a[row] - s[row]) * l0[row];
                *h = *h * y + (a[row] - s[row]) * (a[row] - a[rot(row, -1)]) * la[row];
            }
        }
        for (n, sh) in inst.shuffles.iter().enumerate() {
            let z = extend(domain, &sh.product_poly);
            for (row, h) in h.iter_mut().enumerate() {
                let ex = |e: &ExpressionBack| at(e, row, scale, &fixed, &advice, &instance, v);
                let compress = |es: &[ExpressionBack]| {
                    es.iter().fold(Fr::ZERO, |acc, e| acc * v.theta + ex(e))
                };
                let i = compress(&cs.shuffles[n].input_expressions) + v.gamma;
                let s = compress(&cs.shuffles[n].shuffle_expressions) + v.gamma;
                *h = *h * y + (Fr::ONE - z[row]) * l0[row];
                *h = *h * y + (z[row] * z[row] - z[row]) * ll[row];
                *h = *h * y + la[row] * (z[rot(row, 1)] * s - z[row] * i);
            }
        }
    }
    h
}

fn check(k: usize, extended_k: usize, lookups: usize, shuffles: usize, sets: usize, count: usize) {
    let mut rng = Rng(Fr::from(k as u64 + 100));
    let pk = proving_key(&mut rng, system(), k, extended_k);
    let instances: Vec<Instance> = (0..count)
        .map(|_| instance(&mut rng, 1 << k, lookups, shuffles, sets))
        .collect();
    let v = Values {
        challenges: vec![rng.next()],
        y: rng.next(),
        beta: rng.next(),
        gamma: rng.next(),
        theta: rng.next(),
    };
    let want = reference(&pk, &instances, &v);

    let advice: Vec<&[Polynomial]> = instances.iter().map(|i| &i.advice[..]).collect();
    let public: Vec<&[Polynomial]> = instances.iter().map(|i| &i.instance[..]).collect();
    let l: Vec<_> = instances.iter().map(|i| copy_lookups(&i.lookups)).collect();
    let s: Vec<_> = instances.iter().map(|i| copy_shuffles(&i.shuffles)).collect();
    let p: Vec<_> = instances.iter().map(|i| copy_sets(&i.permutation)).collect();
    let h = pk.ev.evaluate_h(
        &pk, &advice, &public, &v.challenges, v.y, v.beta, v.gamma, v.theta, &l, &s, &p,
    );
    assert_eq!(h.values, want);
    let size = 1usize << extended_k;
    for tile in [1usize, 3, 8, size - 1, size, size + 5] {
        let tiled = pk.ev.evaluate_h_ooc(
            &pk, &advice, &public, &v.challenges, v.y, v.beta, v.gamma, v.theta, &l, &s, &p, tile,
        );
        assert_eq!(tiled.values, want, "tile={tile}");
        let spilled = pk.ev.evaluate_h_ooc_disk(
            &pk, &advice, &public, &v.challenges, v.y, v.beta, v.gamma, v.theta, &l, &s, &p, tile,
        );
        assert_eq!(spilled.values, want, "spilled, tile={tile}");
    }
}

fn copy_lookups(l: &[LookupCommitted]) -> Vec<LookupCommitted> {
    l.iter()
        .map(|l| LookupCommitted {
            product_poly: copy(&l.product_poly),
            permuted_input_poly: copy(&l.permuted_input_poly),
            permuted_table_poly: copy(&l.permuted_table_poly),
        })
        .collect()
}

fn copy_shuffles(s: &[ShuffleCommitted]) -> Vec<ShuffleCommitted> {
    s.iter()
        .map(|s| ShuffleCommitted {
            product_poly: copy(&s.product_poly),
        })
        .collect()
}

fn copy_sets(p: &PermutationCommitted) -> PermutationCommitted {
    PermutationCommitted {
        sets: p
            .sets
            .iter()
            .map(|s| CommittedSet {
                permutation_product_poly: copy(&s.permutation_product_poly),
            })
            .collect(),
    }
}

fn copy(p: &Polynomial) -> Polynomial {
    Polynomial {
        values: p.values.clone(),
    }
}

#[test]
fn every_term_of_the_quotient() {
    check(3, 5, 2, 1, 3, 1);
}

#[test]
fn gates_alone() {
    check(2, 4, 0, 0, 0, 1);
}

#[test]
fn permutation_alone() {
    check(3, 5, 0, 0, 3, 1);
    // Fewer products than chunks of columns, and more.
    check(3, 5, 0, 0, 1, 1);
    check(3, 4, 0, 0, 4, 1);
}

#[test]
fn lookups_alone() {
    check(3, 4, 2, 0, 0, 1);
}

#[test]
fn shuffles_alone() {
    check(3, 4, 0, 1, 0, 1);
}

#[test]
fn two_instances_fold_into_one_quotient() {
    check(3, 4, 1, 1, 2, 2);
}

#[test]
fn no_instance_leaves_zero() {
    check(2, 3, 0, 0, 0, 0);
}

#[test]
fn a_margin_wider_than_the_domain() {
    // Rotations of three rows in a domain of two, so that windows wrap more than once.
    check(1, 2, 1, 1, 2, 1);
}

#[test]
fn the_benchmark_fingerprint() {
    let mut rng = Rng(Fr::from(5));
    let mut cs = system();
    // Keep the first gate, which takes no public column.
    let _ = cs.gates.pop();
    let pk = proving_key(&mut rng, cs, 3, 5);
    let advice = rng.polys(3, 8);
    let (y, b, g, t) = (Fr::from(11), Fr::from(22), Fr::from(33), Fr::from(44));
    let in_core = ss_bench_quotient(&pk, &advice, &[], y, b, g, t, false, 0);
    assert_eq!(in_core.len(), 8);
    for tile in [1usize, 7, 32, 1 << 13] {
        let spilled = ss_bench_quotient(&pk, &advice, &[], y, b, g, t, true, tile);
        assert_eq!(spilled, in_core);
    }

    let want = reference(
        &pk,
        &[Instance {
            advice,
            instance: vec![],
            lookups: vec![],
            shuffles: vec![],
            permutation: PermutationCommitted { sets: vec![] },
        }],
        &Values {
            challenges: vec![],
            y,
            beta: b,
            gamma: g,
            theta: t,
        },
    );
    let acc = want.iter().fold(Fr::ZERO, |acc, v| acc * Fr::DELTA + v);
    assert_eq!(in_core, acc.to_repr().as_ref()[..8].to_vec());
    assert_eq!(fingerprint(&want), in_core);
}

#[test]
fn arguments_that_do_not_fit_are_told_apart() {
    let mut rng = Rng(Fr::from(8));
    let pk = proving_key(&mut rng, system(), 3, 5);
    assert!(pk.check() && pk.vk.domain.check());
    let inst = instance(&mut rng, 8, 2, 1, 3);
    let (l, s, p) = (vec![inst.lookups], vec![inst.shuffles], vec![inst.permutation]);
    let challenges = vec![rng.next()];
    let short = rng.polys(3, 7);
    let few = rng.polys(2, 8);
    let public = [&inst.instance[..]];
    let fits = |advice: &[Polynomial], challenges: &[Fr], public: &[&[Polynomial]]| {
        QuotientArgs {
            pk: &pk,
            advice_polys: &[advice],
            instance_polys: public,
            challenges,
            y: Fr::ONE,
            beta: Fr::ONE,
            gamma: Fr::ONE,
            theta: Fr::ONE,
            lookups: &l,
            shuffles: &s,
            permutations: &p,
        }
        .check(&pk.ev)
    };
    assert!(fits(&inst.advice, &challenges, &public));
    // Too few rows, too few columns, no challenge, no public column.
    assert!(!fits(&short, &challenges, &public));
    assert!(!fits(&few, &challenges, &public));
    assert!(!fits(&inst.advice, &[], &public));
    assert!(!fits(&inst.advice, &challenges, &[&[]]));
    // No instance at all is in order.
    assert!(fits(&short, &challenges, &[]));

    // Sets of the permutation need columns; without sets the degree does not matter.
    let mut flat = proving_key(&mut rng, system(), 3, 5);
    flat.vk.cs.degree = 2;
    assert!(flat.check());
    let none = vec![PermutationCommitted { sets: vec![] }];
    let with = |permutations: &[PermutationCommitted]| {
        QuotientArgs {
            pk: &flat,
            advice_polys: &[&inst.advice],
            instance_polys: &public,
            challenges: &challenges,
            y: Fr::ONE,
            beta: Fr::ONE,
            gamma: Fr::ONE,
            theta: Fr::ONE,
            lookups: &l,
            shuffles: &s,
            permutations,
        }
        .check(&flat.ev)
    };
    assert!(with(&none));
    assert!(!with(&p));

    // Graphs that are out of order.
    let mut ev = Evaluator::new(&system());
    assert!(ev.check());
    ev.custom_gates.calculations[0].target = 1;
    assert!(!ev.check());
    let mut ev = Evaluator::new(&system());
    ev.lookups[0].constants[1] = Fr::ZERO;
    assert!(!ev.check());
    let mut ev = Evaluator::new(&system());
    let _ = ev.shuffles[1].rotations.pop();
    assert!(!ev.check());

    let mut bad = proving_key(&mut rng, system(), 3, 5);
    let _ = bad.l0.values.pop();
    assert!(!bad.check());
    let mut bad = proving_key(&mut rng, system(), 3, 5);
    bad.vk.domain.extended_omega = Fr::ONE;
    assert!(!bad.check());
}

#[test]
fn the_fingerprint_of_small_values() {
    assert_eq!(fingerprint(&[]), vec![0u8; 8]);
    assert_eq!(fingerprint(&[Fr::from(258)]), vec![2, 1, 0, 0, 0, 0, 0, 0]);
}

#[test]
fn rotations_wrap_around_the_domain() {
    assert_eq!(get_rotation_idx(0, 1, 4, 16), 4);
    assert_eq!(get_rotation_idx(0, -1, 4, 16), 12);
    assert_eq!(get_rotation_idx(14, 1, 4, 16), 2);
    assert_eq!(get_rotation_idx(5, 0, 4, 16), 5);
    assert_eq!(get_rotation_idx(1, -9, 4, 16), 13);
    assert_eq!(get_rotation_idx(0, i32::MIN, 1, 16), 0);
    assert_eq!(get_rotation_idx(7, i32::MIN, 1, 16), 7);
    assert_eq!(get_rotation_idx(0, i32::MAX, 1, 16), 15);
}

#[test]
fn the_cursor_visits_every_tile_of_every_instance() {
    let mut c = TileCursor::new(10, 4, 2);
    let mut seen = vec![];
    while let Some(tile) = c.current() {
        seen.push(tile);
        c.advance();
    }
    assert_eq!(
        seen,
        vec![
            (0, 0, 4),
            (0, 4, 4),
            (0, 8, 2),
            (1, 0, 4),
            (1, 4, 4),
            (1, 8, 2)
        ]
    );
    assert!(TileCursor::new(10, 4, 0).current().is_none());
}

#[test]
fn spilled_cosets_read_back_in_windows() {
    let mut rng = Rng(Fr::from(3));
    let p = rng.poly(8).values;
    let c = ReprCoset::create(&p);
    assert_eq!(c.window(0, 2, 5), vec![p[6], p[7], p[0], p[1], p[2]]);
    assert_eq!(c.window(5, 0, 3), vec![p[5], p[6], p[7]]);
    assert_eq!(c.window(0, 0, 9).len(), 9);
}

/// A quotient over 96 pseudo-random columns at `k = 18`, whose fingerprint is known. The
/// constraint takes the last column from the sum of the others, and the transform is linear,
/// so the sum stands for them.
#[test]
fn a_known_fingerprint() {
    let (k, cols, n) = (18usize, 96usize, 1usize << 18);
    let mut x = Fr::from(0x9e37_79b9u64);
    let (a, c) = (Fr::from(6364136223846793005u64), Fr::from(1u64));
    let mut total = vec![Fr::ZERO; n];
    let mut last = vec![Fr::ZERO; n];
    for j in 0..cols {
        for row in 0..n {
            x = x * a + c;
            if j + 1 < cols {
                total[row] += x;
            } else {
                last[row] = x;
            }
        }
    }
    let pk = wide_key(k, 2);
    let advice = [Polynomial { values: total }, Polynomial { values: last }];
    let (y, b, g, t) = (Fr::from(11), Fr::from(22), Fr::from(33), Fr::from(44));
    let got = ss_bench_quotient(&pk, &advice, &[], y, b, g, t, false, 8192);
    assert_eq!(got, vec![0x23, 0xdd, 0x8f, 0x9e, 0xd0, 0xef, 0xfe, 0x87]);
}

/// Gates, lookups and a shuffle of a key whose degree leaves the permutation no columns.
#[test]
fn a_degree_of_two_needs_no_permutation() {
    for degree in [0usize, 1, 2] {
        let mut rng = Rng(Fr::from(21));
        let mut pk = proving_key(&mut rng, system(), 3, 5);
        pk.vk.cs.degree = degree;
        let inst = [instance(&mut rng, 8, 2, 1, 0)];
        let v = Values {
            challenges: vec![rng.next()],
            y: rng.next(),
            beta: rng.next(),
            gamma: rng.next(),
            theta: rng.next(),
        };
        let want = reference(&pk, &inst, &v);
        let [inst] = inst;
        let args = QuotientArgs {
            pk: &pk,
            advice_polys: &[&inst.advice],
            instance_polys: &[&inst.instance],
            challenges: &v.challenges,
            y: v.y,
            beta: v.beta,
            gamma: v.gamma,
            theta: v.theta,
            lookups: &[inst.lookups],
            shuffles: &[inst.shuffles],
            permutations: &[inst.permutation],
        };
        assert!(args.check(&pk.ev) && args.fits_rows(&pk.ev));
        assert_eq!(quotient_in_core(&pk.ev, &args).values, want);
        assert_eq!(args.fits_tiles(&pk.ev, 8), degree == 2);
        if degree == 2 {
            assert_eq!(quotient_tiled(&pk.ev, &args, 8).values, want);
            assert_eq!(quotient_spilled(&pk.ev, &args, 8).values, want);
        }
    }
}

/// Two gates; two ends, two links and three sets; two lookups of five terms and a shuffle of
/// three: each multiplies what came before by `y`.
#[test]
fn one_more_instance_shifts_the_quotient() {
    let mut rng = Rng(Fr::from(31));
    let pk = proving_key(&mut rng, system(), 3, 5);
    let insts = [instance(&mut rng, 8, 2, 1, 3), instance(&mut rng, 8, 2, 1, 3)];
    let v = Values {
        challenges: vec![rng.next()],
        y: rng.next(),
        beta: rng.next(),
        gamma: rng.next(),
        theta: rng.next(),
    };
    let advice: Vec<&[Polynomial]> = insts.iter().map(|i| &i.advice[..]).collect();
    let public: Vec<&[Polynomial]> = insts.iter().map(|i| &i.instance[..]).collect();
    let [a, b] = insts.each_ref();
    let l: Vec<Vec<LookupCommitted>> = [a, b].map(|i| copy_lookups(&i.lookups)).into();
    let s: Vec<Vec<ShuffleCommitted>> = [a, b].map(|i| copy_shuffles(&i.shuffles)).into();
    let p: Vec<PermutationCommitted> = [a, b].map(|i| copy_sets(&i.permutation)).into();
    let of = |from: usize, to: usize| {
        pk.ev
            .evaluate_h(
                &pk,
                &advice[from..to],
                &public[from..to],
                &v.challenges,
                v.y,
                v.beta,
                v.gamma,
                v.theta,
                &l[from..to],
                &s[from..to],
                &p[from..to],
            )
            .values
    };
    let (both, first, second) = (of(0, 2), of(0, 1), of(1, 2));
    let shift = v.y.pow_vartime([2 + 2 + 2 + 3 + 10 + 3]);
    for row in 0..both.len() {
        assert_eq!(both[row], first[row] * shift + second[row]);
    }
}

#[test]
fn the_fresh_polynomials_of_an_instance_in_order() {
    let mut rng = Rng(Fr::from(41));
    let pk = proving_key(&mut rng, system(), 3, 5);
    let inst = instance(&mut rng, 8, 2, 1, 3);
    let (l, s, p) = ([inst.lookups], [inst.shuffles], [inst.permutation]);
    let args = QuotientArgs {
        pk: &pk,
        advice_polys: &[&inst.advice],
        instance_polys: &[&inst.instance],
        challenges: &[],
        y: Fr::ONE,
        beta: Fr::ONE,
        gamma: Fr::ONE,
        theta: Fr::ONE,
        lookups: &l,
        shuffles: &s,
        permutations: &p,
    };
    let mut want: Vec<&Polynomial> = inst.advice.iter().chain(&inst.instance).collect();
    want.extend(p[0].sets.iter().map(|s| &s.permutation_product_poly));
    want.extend(l[0].iter().map(|l| &l.product_poly));
    want.extend(l[0].iter().map(|l| &l.permuted_input_poly));
    want.extend(l[0].iter().map(|l| &l.permuted_table_poly));
    want.extend(s[0].iter().map(|s| &s.product_poly));
    for (j, p) in want.iter().enumerate() {
        assert_eq!(args.fresh_poly(0, j).unwrap().values, p.values);
    }
    assert!(args.fresh_poly(0, want.len()).is_none());
    assert!(args.fresh_poly(0, usize::MAX).is_none());

    let fresh = args.gather(0, want.iter().map(|p| copy(p)).collect());
    assert_eq!(fresh.advice.len(), inst.advice.len());
    assert_eq!(fresh.instance[0].values, inst.instance[0].values);
    assert_eq!(fresh.products[2].values, p[0].sets[2].permutation_product_poly.values);
    assert_eq!(fresh.lookup_products[1].values, l[0][1].product_poly.values);
    assert_eq!(fresh.lookup_inputs[0].values, l[0][0].permuted_input_poly.values);
    assert_eq!(fresh.lookup_tables[1].values, l[0][1].permuted_table_poly.values);
    assert_eq!(fresh.shuffle_products[0].values, s[0][0].product_poly.values);
    assert_eq!(fresh.shuffle_products.len(), 1);

    let extended = args.extend_instance(0);
    let at = inst.advice.len() + inst.instance.len() + 1;
    assert_eq!(extended.products[1].values, extend(&pk.vk.domain, want[at]));
}

#[test]
fn tiles_and_rows_that_can_be_counted() {
    let mut rng = Rng(Fr::from(51));
    let mut pk = proving_key(&mut rng, system(), 3, 5);
    let inst = instance(&mut rng, 8, 0, 0, 0);
    let advice: [&[Polynomial]; 1] = [&inst.advice];
    let public: [&[Polynomial]; 1] = [&inst.instance];
    let challenges = [rng.next()];
    // Rotations in extended rows: up to twice four either way.
    let far = |pk: &ProvingKey, count: usize, tile: usize| {
        let args = QuotientArgs {
            pk,
            advice_polys: &advice[..count],
            instance_polys: &public,
            challenges: &challenges,
            y: Fr::ONE,
            beta: Fr::ONE,
            gamma: Fr::ONE,
            theta: Fr::ONE,
            lookups: &[vec![]],
            shuffles: &[vec![]],
            permutations: &[PermutationCommitted { sets: vec![] }],
        };
        assert!(args.check(&pk.ev));
        (args.fits_rows(&pk.ev), args.fits_tiles(&pk.ev, tile))
    };
    assert_eq!(far(&pk, 1, 8), (true, true));
    assert_eq!(far(&pk, 1, 0), (true, false));
    assert_eq!(far(&pk, 0, 0), (true, true));
    // The smallest rotation still reaches every row in core, though no margin covers it.
    pk.ev.custom_gates.rotations[0] = i32::MIN / 4;
    assert_eq!(far(&pk, 1, 8), (true, false));
    assert_eq!(far(&pk, 0, 8), (true, true));
    pk.ev.custom_gates.rotations[0] = i32::MIN;
    assert_eq!(far(&pk, 1, 8), (false, false));
    pk.ev.custom_gates.rotations[0] = i32::MAX / 4;
    assert_eq!(far(&pk, 1, 8), (false, false));
}

#[test]
fn no_instance_needs_no_tile() {
    let mut rng = Rng(Fr::from(61));
    let pk = proving_key(&mut rng, system(), 2, 4);
    let none: [&[Polynomial]; 0] = [];
    let (y, b, g, t) = (Fr::ONE, Fr::ONE, Fr::ONE, Fr::ONE);
    let zeros = vec![Fr::ZERO; 16];
    let h = pk.ev.evaluate_h_ooc(&pk, &none, &none, &[], y, b, g, t, &[], &[], &[], 0);
    assert_eq!(h.values, zeros);
    let h = pk.ev.evaluate_h_ooc_disk(&pk, &none, &none, &[], y, b, g, t, &[], &[], &[], 0);
    assert_eq!(h.values, zeros);
}

#[test]
fn the_benchmark_columns() {
    let columns = bench_columns(3, 2);
    let mut x = Fr::from(0x9e37_79b9u64);
    assert_eq!(columns.len(), 2);
    for c in &columns {
        assert_eq!(c.values.len(), 3);
        for v in &c.values {
            x = x * Fr::from(6364136223846793005u64) + Fr::ONE;
            assert_eq!(*v, x);
        }
    }
    let first = 0x9e37_79b9u128 * 6364136223846793005 + 1;
    assert_eq!(columns[0].values[0], Fr::from_u128(first));
    assert!(bench_columns(3, 0).is_empty());
}

#[test]
fn the_benchmark_key() {
    let (k, n) = (4usize, 16usize);
    let pk = wide_key(k, 3);
    assert!(pk.check() && pk.ev.check());
    assert_eq!(pk.vk.domain.extended_k, 5);
    let root = |k: u32| Fr::ROOT_OF_UNITY.pow_vartime([1u64 << (Fr::S - k)]);
    assert_eq!(pk.vk.domain.extended_omega, root(5));
    let coset = |one: &dyn Fn(usize) -> bool| {
        let mut v: Vec<Fr> = (0..n)
            .map(|row| if one(row) { Fr::ONE } else { Fr::ZERO })
            .collect();
        best_fft(&mut v, root(4).invert().unwrap(), 4);
        let n_inv = Fr::from(n as u64).invert().unwrap();
        let values = v.into_iter().map(|x| x * n_inv).collect();
        extend(&pk.vk.domain, &Polynomial { values })
    };
    assert_eq!(pk.fixed_cosets[0].values, coset(&|_| false));
    assert_eq!(pk.l0.values, coset(&|row| row == 0));
    assert_eq!(pk.l_last.values, coset(&|row| row == 10));
    assert_eq!(pk.l_active_row.values, coset(&|row| row < 10));

    // The circuit's own rows meet its gate, so the values are those of a multiple of the
    // polynomial that vanishes on the circuit's rows.
    let (k, n) = (5u32, 32usize);
    let pk = wide_key(k as usize, 3);
    let mut rows = wide_rows(k as usize, 3);
    // A row that the selector leaves out.
    rows.advice[2].values[n - 1] = Fr::ONE;
    let advice: Vec<Polynomial> = rows
        .advice
        .iter()
        .map(|c| Polynomial {
            values: interpolate(&c.values, root(k), k as usize),
        })
        .collect();
    let (y, b, g, t) = (Fr::from(11), Fr::from(22), Fr::from(33), Fr::from(44));
    let none = [PermutationCommitted { sets: vec![] }];
    let h = pk.ev.evaluate_h(
        &pk, &[&advice], &[&[]], &[], y, b, g, t, &[vec![]], &[vec![]], &none,
    );
    let zeta = <Fr as WithSmallOrderMulGroup<3>>::ZETA;
    let coeffs: Vec<Fr> = interpolate(&h.values, root(k + 1), k as usize + 1)
        .iter()
        .enumerate()
        .map(|(i, c)| *c * zeta.pow_vartime([i as u64]).invert().unwrap())
        .collect();
    assert!(coeffs.iter().any(|c| *c != Fr::ZERO));
    for i in 0..n {
        assert_eq!(coeffs[i] + coeffs[i + n], Fr::ZERO);
    }
}
