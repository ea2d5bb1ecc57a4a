//! The quotient over the extended domain: in core, and a tile at a time.

use halo2curves::bn256::Fr;
use vstd::arithmetic::mul::*;
use vstd::arithmetic::power2::*;
use vstd::prelude::*;

use crate::field::{canonical, canonical_all, fpow, fr_zeta, primitive_root, val, vals};
use crate::halo2::fft::{coeff_to_extended, extended, zeros};
use crate::halo2::tiled::{window_rows, TileSpec};
use crate::plonk::circuit::{
    columns_wf, rotation_fits_all, table_vals, Inputs, Limits, Polynomial, Tables,
};
use crate::plonk::evaluator::{ConstraintSystemBack, Evaluator};
use crate::plonk::graph::{
    each_source, graph_fits, graph_within, lemma_each_source_weaken, limits_of, rows_at_least,
    source_within, GraphEvaluator, ValueSource,
};
use crate::plonk::quotient::{row_value, zeta, CosetVals, Row};
use crate::plonk::tile::{evaluate_tile, rotations_fit, Cosets, Place, Uses};
use crate::plonk::windows::{
    all_rows, cosets_rows, law_row_value_local, law_window_row, Window,
};
use crate::powers::two_to;

verus! {

/// The domain of a circuit's rows and the larger coset on which the quotient is evaluated.
#[derive(Debug)]
pub struct EvaluationDomain {
    /// The circuit has `2^k` rows.
    pub k: usize,
    /// The extended domain has `2^extended_k` rows.
    pub extended_k: usize,
    /// A primitive root of unity of that order.
    pub extended_omega: Fr,
}

impl EvaluationDomain {
    pub open spec fn wf(&self) -> bool {
        &&& self.k <= self.extended_k < 31
        &&& canonical(self.extended_omega)
        &&& primitive_root(val(self.extended_omega), self.size())
    }

    /// The number of rows of the extended domain.
    pub open spec fn size(&self) -> int {
        pow2(self.extended_k as nat) as int
    }

    /// The number of rows of the extended domain from one row of the circuit to the next.
    pub open spec fn scale(&self) -> int {
        pow2((self.extended_k - self.k) as nat) as int
    }

    /// The values of a polynomial over the extended domain.
    pub open spec fn extend(&self, coeffs: Seq<int>) -> Seq<int> {
        extended(coeffs, zeta(), val(self.extended_omega), self.size() as nat)
    }

    /// The values of several polynomials.
    pub open spec fn extend_all(&self, coeffs: Seq<Seq<int>>) -> Seq<Seq<int>> {
        Seq::new(coeffs.len(), |j: int| self.extend(coeffs[j]))
    }

    /// The number of rows of the extended domain.
    pub fn extended_len(&self) -> (r: usize)
        requires
            self.wf(),
        ensures
            r == self.size(),
            r == pow2(self.extended_k as nat),
            0 < r <= 0x4000_0000,
    {
        proof {
            lemma_small_power(self.extended_k as nat);
        }
        two_to(self.extended_k)
    }

    /// The number of rows of the extended domain from one row of the circuit to the next.
    pub fn rot_scale(&self) -> (r: i32)
        requires
            self.wf(),
        ensures
            r == self.scale(),
            r == pow2((self.extended_k - self.k) as nat),
            0 < r <= 0x4000_0000,
    {
        proof {
            lemma_small_power((self.extended_k - self.k) as nat);
        }
        two_to(self.extended_k - self.k) as i32
    }

    /// The values of a polynomial over the extended domain.
    pub fn coeff_to_extended(&self, poly: &Polynomial) -> (r: Polynomial)
        requires
            self.wf(),
            canonical_all(poly.values@),
            poly.values@.len() == pow2(self.k as nat),
        ensures
            canonical_all(r.values@),
            r.values@.len() == self.size(),
            vals(r.values@) == self.extend(vals(poly.values@)),
    {
        let zeta = fr_zeta();
        proof {
            lemma_small_power(self.extended_k as nat);
            if self.k < self.extended_k {
                lemma_pow2_strictly_increases(self.k as nat, self.extended_k as nat);
            }
        }
        let values = coeff_to_extended(
            poly.values.as_slice(),
            zeta,
            self.extended_omega,
            self.extended_k,
        );
        assert(vals(values@).len() == values@.len());
        Polynomial { values }
    }

    /// Polynomials of the circuit's degree, in reduced form.
    pub open spec fn polys_wf(&self, polys: Seq<Polynomial>) -> bool {
        forall|j: int|
            0 <= j < polys.len() ==> self.poly_wf(#[trigger] polys[j])
    }

    pub open spec fn poly_wf(&self, p: Polynomial) -> bool {
        canonical_all(p.values@) && p.values@.len() == pow2(self.k as nat)
    }
}

pub proof fn lemma_small_power(e: nat)
    requires
        e < 31,
    ensures
        0 < pow2(e) <= 0x4000_0000,
{
    lemma2_to64();
    lemma_pow2_pos(e);
    if e < 30 {
        lemma_pow2_strictly_increases(e, 30);
    }
}

/// What verification takes from a circuit: its domain and its constraints.
#[derive(Debug)]
pub struct VerifyingKey {
    pub domain: EvaluationDomain,
    pub cs: ConstraintSystemBack,
}

/// What proving takes from a circuit, over the extended domain.
#[derive(Debug)]
pub struct ProvingKey {
    pub vk: VerifyingKey,
    pub fixed_cosets: Vec<Polynomial>,
    pub l0: Polynomial,
    pub l_last: Polynomial,
    pub l_active_row: Polynomial,
    /// The permutation polynomials, one for each of its columns.
    pub permutation_cosets: Vec<Polynomial>,
    pub ev: Evaluator,
}

/// A committed lookup argument.
#[derive(Debug)]
pub struct LookupCommitted {
    pub product_poly: Polynomial,
    pub permuted_input_poly: Polynomial,
    pub permuted_table_poly: Polynomial,
}

/// A committed shuffle argument.
#[derive(Debug)]
pub struct ShuffleCommitted {
    pub product_poly: Polynomial,
}

/// A committed set of the permutation argument.
#[derive(Debug)]
pub struct CommittedSet {
    pub permutation_product_poly: Polynomial,
}

/// A committed permutation argument.
#[derive(Debug)]
pub struct PermutationCommitted {
    pub sets: Vec<CommittedSet>,
}

/// A coset of the extended domain, in reduced form.
pub open spec fn coset_wf(p: Polynomial, size: int) -> bool {
    canonical_all(p.values@) && p.values@.len() == size
}

pub open spec fn cosets_wf(p: Seq<Polynomial>, size: int) -> bool {
    forall|j: int| 0 <= j < p.len() ==> coset_wf(#[trigger] p[j], size)
}

impl ProvingKey {
    pub open spec fn wf(&self) -> bool {
        let size = self.vk.domain.size();
        &&& self.vk.domain.wf()
        &&& cosets_wf(self.fixed_cosets@, size)
        &&& coset_wf(self.l0, size)
        &&& coset_wf(self.l_last, size)
        &&& coset_wf(self.l_active_row, size)
        &&& cosets_wf(self.permutation_cosets@, size)
        &&& self.permutation_cosets@.len() == self.vk.cs.permutation@.len()
        &&& self.vk.cs.blinding_factors < i32::MAX
    }
}

pub open spec fn lookup_products(l: Seq<LookupCommitted>) -> Seq<Seq<int>> {
    Seq::new(l.len(), |j: int| vals(l[j].product_poly.values@))
}

pub open spec fn lookup_inputs(l: Seq<LookupCommitted>) -> Seq<Seq<int>> {
    Seq::new(l.len(), |j: int| vals(l[j].permuted_input_poly.values@))
}

pub open spec fn lookup_tables(l: Seq<LookupCommitted>) -> Seq<Seq<int>> {
    Seq::new(l.len(), |j: int| vals(l[j].permuted_table_poly.values@))
}

pub open spec fn shuffle_products(s: Seq<ShuffleCommitted>) -> Seq<Seq<int>> {
    Seq::new(s.len(), |j: int| vals(s[j].product_poly.values@))
}

pub open spec fn set_products(s: Seq<CommittedSet>) -> Seq<Seq<int>> {
    Seq::new(s.len(), |j: int| vals(s[j].permutation_product_poly.values@))
}

/// What the quotient is computed from: the key, and for each instance its witness columns and
/// its committed arguments.
pub struct QuotientArgs<'a> {
    pub pk: &'a ProvingKey,
    pub advice_polys: &'a [&'a [Polynomial]],
    pub instance_polys: &'a [&'a [Polynomial]],
    pub challenges: &'a [Fr],
    pub y: Fr,
    pub beta: Fr,
    pub gamma: Fr,
    pub theta: Fr,
    pub lookups: &'a [Vec<LookupCommitted>],
    pub shuffles: &'a [Vec<ShuffleCommitted>],
    pub permutations: &'a [PermutationCommitted],
}

/// The number of rows of a tile, or of the domain where the tile is larger.
pub open spec fn tile_rows(tile: int, size: int) -> int {
    if tile < size {
        tile
    } else {
        size
    }
}

/// The largest of the rotations' sizes.
pub open spec fn largest(rotations: Seq<i32>) -> int
    decreases rotations.len(),
{
    if rotations.len() == 0 {
        0
    } else {
        let r = rotations.last() as int;
        let size = if r < 0 {
            -r
        } else {
            r
        };
        let rest = largest(rotations.drop_last());
        if rest < size {
            size
        } else {
            rest
        }
    }
}

/// The largest of the sizes of several graphs' rotations.
pub open spec fn largest_of(graphs: Seq<GraphEvaluator>) -> int
    decreases graphs.len(),
{
    if graphs.len() == 0 {
        0
    } else {
        let last = largest(graphs.last().rotations@);
        let rest = largest_of(graphs.drop_last());
        if rest < last {
            last
        } else {
            rest
        }
    }
}

pub open spec fn max(a: int, b: int) -> int {
    if a < b {
        b
    } else {
        a
    }
}

impl<'a> QuotientArgs<'a> {
    /// The number of instances: as many as every list holds.
    pub open spec fn instances(&self) -> nat {
        let a = if self.advice_polys@.len() < self.instance_polys@.len() {
            self.advice_polys@.len()
        } else {
            self.instance_polys@.len()
        };
        let b = if self.permutations@.len() < self.shuffles@.len() {
            self.permutations@.len()
        } else {
            self.shuffles@.len()
        };
        let c = if b < self.lookups@.len() {
            b
        } else {
            self.lookups@.len()
        };
        if a < c {
            a
        } else {
            c
        }
    }

    /// The rotation that leads to the last row in use.
    pub open spec fn last_rotation(&self) -> int {
        -(self.pk.vk.cs.blinding_factors + 1)
    }

    /// The cosets of an instance.
    pub open spec fn cosets(&self, i: int) -> CosetVals {
        let domain = self.pk.vk.domain;
        CosetVals {
            tables: Tables {
                fixed: table_vals(self.pk.fixed_cosets@),
                advice: domain.extend_all(table_vals(self.advice_polys@[i]@)),
                instance: domain.extend_all(table_vals(self.instance_polys@[i]@)),
                challenges: vals(self.challenges@),
                beta: val(self.beta),
                gamma: val(self.gamma),
                theta: val(self.theta),
                y: val(self.y),
            },
            l0: vals(self.pk.l0.values@),
            l_last: vals(self.pk.l_last.values@),
            l_active: vals(self.pk.l_active_row.values@),
            columns: self.pk.vk.cs.permutation@,
            sigmas: table_vals(self.pk.permutation_cosets@),
            products: domain.extend_all(set_products(self.permutations@[i].sets@)),
            lookup_products: domain.extend_all(lookup_products(self.lookups@[i]@)),
            lookup_inputs: domain.extend_all(lookup_inputs(self.lookups@[i]@)),
            lookup_tables: domain.extend_all(lookup_tables(self.lookups@[i]@)),
            shuffle_products: domain.extend_all(shuffle_products(self.shuffles@[i]@)),
            last_rotation: self.last_rotation(),
        }
    }

    /// The number of columns of a set of the permutation.
    pub open spec fn chunk_len(&self) -> int {
        if self.pk.vk.cs.degree < 2 {
            0
        } else {
            self.pk.vk.cs.degree - 2
        }
    }

    /// What the quotient takes from a row of the domain for an instance.
    pub open spec fn row(&self, i: int, row: int) -> Row {
        let domain = self.pk.vk.domain;
        self.cosets(i).row(
            row,
            domain.scale(),
            domain.size(),
            fpow(val(domain.extended_omega), row as nat),
        )
    }

    /// The quotient at a row of the extended domain: the terms of the first `n` instances,
    /// one after the other, folded into zero.
    pub open spec fn quotient(&self, ev: Evaluator, row: int, n: nat) -> int
        decreases n,
    {
        if n == 0 {
            0
        } else {
            row_value(
                ev,
                self.row(n - 1, row),
                self.chunk_len(),
                self.quotient(ev, row, (n - 1) as nat),
            )
        }
    }

    /// Some instance has a permutation argument, a lookup or a shuffle.
    pub open spec fn has_permutation(&self) -> bool {
        exists|i: int|
            0 <= i < self.permutations@.len() && (#[trigger] self.permutations@[i]).sets@.len() > 0
    }

    pub open spec fn has_lookup(&self) -> bool {
        exists|i: int| 0 <= i < self.lookups@.len() && (#[trigger] self.lookups@[i])@.len() > 0
    }

    pub open spec fn has_shuffle(&self) -> bool {
        exists|i: int| 0 <= i < self.shuffles@.len() && (#[trigger] self.shuffles@[i])@.len() > 0
    }

    /// The largest rotation, either way, that some term uses.
    pub open spec fn max_rotation(&self, ev: Evaluator) -> int {
        let perm = if self.has_permutation() {
            self.pk.vk.cs.blinding_factors + 1
        } else {
            0
        };
        let shuffle = if self.has_shuffle() {
            max(largest_of(ev.shuffles@), 1)
        } else {
            0
        };
        let lookup = if self.has_lookup() {
            max(largest_of(ev.lookups@), 1)
        } else {
            0
        };
        max(max(max(largest(ev.custom_gates.rotations@), perm), shuffle), lookup)
    }

    /// The bounds that an instance's columns set, whatever the rotations.
    pub open spec fn limits(&self, i: int, rotation: int) -> Limits {
        Limits {
            fixed: self.pk.fixed_cosets@.len() as int,
            advice: self.advice_polys@[i]@.len() as int,
            instance: self.instance_polys@[i]@.len() as int,
            challenges: self.challenges@.len() as int,
            rotation,
        }
    }

    /// An instance's polynomials are of the circuit's degree.
    pub open spec fn polys_wf(&self, i: int) -> bool {
        let domain = self.pk.vk.domain;
        &&& domain.polys_wf(self.advice_polys@[i]@)
        &&& domain.polys_wf(self.instance_polys@[i]@)
        &&& forall|j: int|
            0 <= j < self.permutations@[i].sets@.len() ==> domain.poly_wf(
                (#[trigger] self.permutations@[i].sets@[j]).permutation_product_poly,
            )
        &&& forall|j: int|
            0 <= j < self.lookups@[i]@.len() ==> domain.poly_wf(
                (#[trigger] self.lookups@[i]@[j]).product_poly,
            ) && domain.poly_wf(self.lookups@[i]@[j].permuted_input_poly) && domain.poly_wf(
                self.lookups@[i]@[j].permuted_table_poly,
            )
        &&& forall|j: int|
            0 <= j < self.shuffles@[i]@.len() ==> domain.poly_wf(
                (#[trigger] self.shuffles@[i]@[j]).product_poly,
            )
    }

    /// An instance's polynomials are in order, and the graphs look only at columns that it
    /// has.
    pub open spec fn instance_wf(&self, ev: Evaluator, i: int) -> bool {
        self.polys_wf(i) && self.graphs_fit(ev, i)
    }

    /// The graphs that an instance needs are there, and look only at columns that it has.
    pub open spec fn graphs_fit(&self, ev: Evaluator, i: int) -> bool {
        let lim = self.limits(i, 0x8000_0000);
        &&& self.lookups@[i]@.len() <= ev.lookups@.len()
        &&& 2 * self.shuffles@[i]@.len() <= ev.shuffles@.len()
        &&& graph_within(ev.custom_gates, lim)
        &&& forall|n: int|
            0 <= n < self.lookups@[i]@.len() ==> graph_within(#[trigger] ev.lookups@[n], lim)
        &&& forall|n: int|
            0 <= n < 2 * self.shuffles@[i]@.len() ==> graph_within(#[trigger] ev.shuffles@[n], lim)
        &&& self.permutations@[i].sets@.len() > 0 ==> self.pk.vk.cs.degree > 2 && forall|j: int|
            0 <= j < self.pk.vk.cs.permutation@.len() ==> lim.allows_column(
                #[trigger] self.pk.vk.cs.permutation@[j],
            )
    }

    /// The terms that an instance has.
    pub open spec fn uses(&self, i: int) -> Uses {
        Uses {
            sets: self.permutations@[i].sets@.len(),
            lookups: self.lookups@[i]@.len(),
            shuffles: self.shuffles@[i]@.len(),
            last_rotation: self.last_rotation(),
        }
    }

    /// Every rotation that an instance's terms use can be counted from each row of the
    /// extended domain.
    pub open spec fn instance_fits(&self, ev: Evaluator, i: int) -> bool {
        let domain = self.pk.vk.domain;
        rotations_fit(ev, self.uses(i), 0, domain.size(), domain.scale())
    }

    /// The same of every instance.
    pub open spec fn rows_fit(&self, ev: Evaluator) -> bool {
        forall|i: int| 0 <= i < self.instances() ==> #[trigger] self.instance_fits(ev, i)
    }

    /// The domain can be gone through in tiles of `tile` rows: where there is an instance, a
    /// tile with its margins can be counted.
    pub open spec fn tiles_fit(&self, ev: Evaluator, tile: int) -> bool {
        self.instances() > 0 ==> {
            &&& 0 < tile
            &&& self.pk.vk.cs.degree >= 2
            &&& tile_rows(tile, self.pk.vk.domain.size()) + 2 * self.halo(ev) <= i32::MAX
        }
    }

    /// The quotient can be computed: the key, the challenges and every instance are in order.
    pub open spec fn wf(&self, ev: Evaluator) -> bool {
        &&& ev.wf()
        &&& self.pk.wf()
        &&& canonical_all(self.challenges@)
        &&& canonical(self.y)
        &&& canonical(self.beta)
        &&& canonical(self.gamma)
        &&& canonical(self.theta)
        &&& forall|i: int|
            0 <= i < self.instances() ==> #[trigger] self.instance_wf(ev, i)
    }

    /// The margin of a window: the largest rotation, in rows of the extended domain.
    pub open spec fn halo(&self, ev: Evaluator) -> int {
        self.max_rotation(ev) * self.pk.vk.domain.scale()
    }
}

/// The size of a rotation.
fn rotation_size(r: i32) -> (s: usize)
    ensures
        s == (if r < 0 {
            -r
        } else {
            r as int
        }),
{
    if r < 0 {
        (-(r as i64)) as usize
    } else {
        r as usize
    }
}

/// The largest of the rotations' sizes.
fn largest_rotation(rotations: &Vec<i32>) -> (r: usize)
    ensures
        r == largest(rotations@),
        r <= 0x8000_0000,
{
    let mut best: usize = 0;
    assert(rotations@.take(0) =~= Seq::<i32>::empty());
    for i in 0..rotations.len()
        invariant
            best == largest(rotations@.take(i as int)),
            best <= 0x8000_0000,
    {
        let size = rotation_size(rotations[i]);
        assert(rotations@.take(i + 1).drop_last() =~= rotations@.take(i as int));
        if best < size {
            best = size;
        }
    }
    assert(rotations@.take(rotations@.len() as int) =~= rotations@);
    best
}

/// The largest of the sizes of several graphs' rotations.
fn largest_rotation_of(graphs: &Vec<GraphEvaluator>) -> (r: usize)
    ensures
        r == largest_of(graphs@),
        r <= 0x8000_0000,
{
    let mut best: usize = 0;
    assert(graphs@.take(0) =~= Seq::<GraphEvaluator>::empty());
    for i in 0..graphs.len()
        invariant
            best == largest_of(graphs@.take(i as int)),
            best <= 0x8000_0000,
    {
        let size = largest_rotation(&graphs[i].rotations);
        assert(graphs@.take(i + 1).drop_last() =~= graphs@.take(i as int));
        if best < size {
            best = size;
        }
    }
    assert(graphs@.take(graphs@.len() as int) =~= graphs@);
    best
}

/// The largest size bounds every rotation.
pub proof fn lemma_largest_bounds(rotations: Seq<i32>, i: int)
    requires
        0 <= i < rotations.len(),
    ensures
        -largest(rotations) <= rotations[i] <= largest(rotations),
    decreases rotations.len(),
{
    if i < rotations.len() - 1 {
        lemma_largest_bounds(rotations.drop_last(), i);
    }
}

pub proof fn lemma_largest_of_bounds(graphs: Seq<GraphEvaluator>, i: int)
    requires
        0 <= i < graphs.len(),
    ensures
        largest(graphs[i].rotations@) <= largest_of(graphs),
    decreases graphs.len(),
{
    if i < graphs.len() - 1 {
        lemma_largest_of_bounds(graphs.drop_last(), i);
    }
}

/// Bounds on a graph's rotations sharpen its bounds.
proof fn lemma_within_rotation(g: GraphEvaluator, a: Limits, b: Limits)
    requires
        graph_within(g, a),
        largest(g.rotations@) <= b.rotation,
        b == (Limits { rotation: b.rotation, ..a }),
    ensures
        graph_within(g, b),
{
    assert forall|i: int| 0 <= i < g.rotations@.len() implies b.allows_rotation(
        #[trigger] g.rotations@[i] as int,
    ) by {
        lemma_largest_bounds(g.rotations@, i);
    }
    assert forall|i: int| 0 <= i < g.calculations@.len() implies each_source(
        (#[trigger] g.calculations@[i]).calculation,
        |s: ValueSource| source_within(s, b),
    ) by {
        let p = |s: ValueSource| source_within(s, a);
        let q = |s: ValueSource| source_within(s, b);
        let c = g.calculations@[i].calculation;
        assert(each_source(c, p));
        assert forall|s: ValueSource| #[trigger] p(s) implies q(s) by {}
        lemma_each_source_weaken(c, p, q);
    }
}

impl<'a> QuotientArgs<'a> {
    /// The number of instances.
    pub fn count(&self) -> (r: usize)
        ensures
            r == self.instances(),
    {
        let mut n = self.advice_polys.len();
        if self.instance_polys.len() < n {
            n = self.instance_polys.len();
        }
        if self.permutations.len() < n {
            n = self.permutations.len();
        }
        if self.shuffles.len() < n {
            n = self.shuffles.len();
        }
        if self.lookups.len() < n {
            n = self.lookups.len();
        }
        n
    }

    /// The largest rotation, either way, that some term uses.
    pub fn largest_in_use(&self, ev: &Evaluator) -> (r: usize)
        requires
            self.pk.vk.cs.blinding_factors < i32::MAX,
        ensures
            r == self.max_rotation(*ev),
            r <= 0x8000_0000,
    {
        let mut has_perm = false;
        for i in 0..self.permutations.len()
            invariant
                has_perm == exists|j: int|
                    0 <= j < i && (#[trigger] self.permutations@[j]).sets@.len() > 0,
        {
            if self.permutations[i].sets.len() > 0 {
                has_perm = true;
                assert(self.permutations@[i as int].sets@.len() > 0);
            }
        }
        let mut has_shuffle = false;
        for i in 0..self.shuffles.len()
            invariant
                has_shuffle == exists|j: int|
                    0 <= j < i && (#[trigger] self.shuffles@[j])@.len() > 0,
        {
            if self.shuffles[i].len() > 0 {
                has_shuffle = true;
                assert(self.shuffles@[i as int]@.len() > 0);
            }
        }
        let mut has_lookup = false;
        for i in 0..self.lookups.len()
            invariant
                has_lookup == exists|j: int|
                    0 <= j < i && (#[trigger] self.lookups@[j])@.len() > 0,
        {
            if self.lookups[i].len() > 0 {
                has_lookup = true;
                assert(self.lookups@[i as int]@.len() > 0);
            }
        }
        let mut r = largest_rotation(&ev.custom_gates.rotations);
        if has_perm {
            let rot: usize = self.pk.vk.cs.blinding_factors + 1;
            if r < rot {
                r = rot;
            }
        }
        if has_shuffle {
            let rot = largest_rotation_of(&ev.shuffles);
            if r < rot {
                r = rot;
            }
            if r < 1 {
                r = 1;
            }
        }
        if has_lookup {
            let rot = largest_rotation_of(&ev.lookups);
            if r < rot {
                r = rot;
            }
            if r < 1 {
                r = 1;
            }
        }
        r
    }
}

/// The cosets that an instance adds to those of the key, or windows of them.
#[derive(Debug)]
pub struct Fresh {
    pub advice: Vec<Polynomial>,
    pub instance: Vec<Polynomial>,
    pub products: Vec<Polynomial>,
    pub lookup_products: Vec<Polynomial>,
    pub lookup_inputs: Vec<Polynomial>,
    pub lookup_tables: Vec<Polynomial>,
    pub shuffle_products: Vec<Polynomial>,
}

impl Fresh {
    /// Every coset is in reduced form and has `n` rows.
    pub open spec fn wf(&self, n: int) -> bool {
        &&& cosets_wf(self.advice@, n)
        &&& cosets_wf(self.instance@, n)
        &&& cosets_wf(self.products@, n)
        &&& cosets_wf(self.lookup_products@, n)
        &&& cosets_wf(self.lookup_inputs@, n)
        &&& cosets_wf(self.lookup_tables@, n)
        &&& cosets_wf(self.shuffle_products@, n)
    }

    /// The cosets are those of the model.
    pub open spec fn holds(&self, c: CosetVals) -> bool {
        &&& table_vals(self.advice@) == c.tables.advice
        &&& table_vals(self.instance@) == c.tables.instance
        &&& table_vals(self.products@) == c.products
        &&& table_vals(self.lookup_products@) == c.lookup_products
        &&& table_vals(self.lookup_inputs@) == c.lookup_inputs
        &&& table_vals(self.lookup_tables@) == c.lookup_tables
        &&& table_vals(self.shuffle_products@) == c.shuffle_products
    }
}

impl<'a> QuotientArgs<'a> {
    /// The polynomials of an instance whose cosets the key does not hold: the advice columns,
    /// the instance columns, the products of the permutation, the products, permuted inputs and
    /// permuted tables of the lookups, and the products of the shuffles.
    pub open spec fn fresh_polys(&self, i: int) -> Seq<Polynomial> {
        let sets = self.permutations@[i].sets@;
        let lookups = self.lookups@[i]@;
        let shuffles = self.shuffles@[i]@;
        self.advice_polys@[i]@ + self.instance_polys@[i]@ + Seq::new(
            sets.len(),
            |j: int| sets[j].permutation_product_poly,
        ) + Seq::new(lookups.len(), |j: int| lookups[j].product_poly) + Seq::new(
            lookups.len(),
            |j: int| lookups[j].permuted_input_poly,
        ) + Seq::new(lookups.len(), |j: int| lookups[j].permuted_table_poly) + Seq::new(
            shuffles.len(),
            |j: int| shuffles[j].product_poly,
        )
    }

    /// The values of those polynomials over the extended domain.
    pub open spec fn fresh_cosets(&self, i: int) -> Seq<Seq<int>> {
        self.pk.vk.domain.extend_all(table_vals(self.fresh_polys(i)))
    }

    /// The `j`-th of the polynomials of an instance whose cosets the key does not hold.
    pub fn fresh_poly(&self, i: usize, j: usize) -> (r: Option<&Polynomial>)
        requires
            i < self.instances(),
        ensures
            r is Some <==> j < self.fresh_polys(i as int).len(),
            r matches Some(p) ==> *p == self.fresh_polys(i as int)[j as int],
            r matches Some(p) ==> self.polys_wf(i as int) ==> self.pk.vk.domain.poly_wf(*p),
    {
        let advice = self.advice_polys[i];
        let instance = self.instance_polys[i];
        let sets = &self.permutations[i].sets;
        let lookups = &self.lookups[i];
        let shuffles = &self.shuffles[i];
        let mut k: usize = j;
        if k < advice.len() {
            return Some(&advice[k]);
        }
        k = k - advice.len();
        if k < instance.len() {
            return Some(&instance[k]);
        }
        k = k - instance.len();
        if k < sets.len() {
            return Some(&sets[k].permutation_product_poly);
        }
        k = k - sets.len();
        if k < lookups.len() {
            return Some(&lookups[k].product_poly);
        }
        k = k - lookups.len();
        if k < lookups.len() {
            return Some(&lookups[k].permuted_input_poly);
        }
        k = k - lookups.len();
        if k < lookups.len() {
            return Some(&lookups[k].permuted_table_poly);
        }
        k = k - lookups.len();
        if k < shuffles.len() {
            return Some(&shuffles[k].product_poly);
        }
        None
    }

    /// The cosets that an instance adds to those of the key, or windows of them, from a list
    /// in the order of its polynomials.
    pub fn gather(&self, i: usize, list: Vec<Polynomial>) -> (r: Fresh)
        requires
            i < self.instances(),
            list@.len() == self.fresh_polys(i as int).len(),
        ensures
            forall|n: int| #[trigger] cosets_wf(list@, n) ==> r.wf(n),
            table_vals(list@) == self.fresh_cosets(i as int) ==> r.holds(self.cosets(i as int)),
            forall|w: Window|
                table_vals(list@) == #[trigger] w.of_all(self.fresh_cosets(i as int)) ==> r.holds(
                    w.of_cosets(self.cosets(i as int)),
                ),
    {
        let ghost all = list@;
        let sets = self.permutations[i].sets.len();
        let lookups = self.lookups[i].len();
        let mut advice = list;
        let mut instance = advice.split_off(self.advice_polys[i].len());
        let mut products = instance.split_off(self.instance_polys[i].len());
        let mut lookup_products = products.split_off(sets);
        let mut lookup_inputs = lookup_products.split_off(lookups);
        let mut lookup_tables = lookup_inputs.split_off(lookups);
        let shuffle_products = lookup_tables.split_off(lookups);
        let r = Fresh {
            advice,
            instance,
            products,
            lookup_products,
            lookup_inputs,
            lookup_tables,
            shuffle_products,
        };
        proof {
            assert(all =~= r.advice@ + r.instance@ + r.products@ + r.lookup_products@
                + r.lookup_inputs@ + r.lookup_tables@ + r.shuffle_products@);
            lemma_gathered(*self, i as int, all, r);
        }
        r
    }

    /// The cosets that an instance adds to those of the key.
    pub fn extend_instance(&self, i: usize) -> (r: Fresh)
        requires
            self.pk.wf(),
            i < self.instances(),
            self.polys_wf(i as int),
        ensures
            r.wf(self.pk.vk.domain.size()),
            r.holds(self.cosets(i as int)),
    {
        let domain = &self.pk.vk.domain;
        let mut list: Vec<Polynomial> = Vec::new();
        let ghost polys = self.fresh_polys(i as int);
        let mut j: usize = 0;
        loop
            invariant
                *domain == self.pk.vk.domain,
                domain.wf(),
                i < self.instances(),
                self.polys_wf(i as int),
                polys == self.fresh_polys(i as int),
                j <= polys.len(),
                list@.len() == j,
                cosets_wf(list@, domain.size()),
                forall|q: int|
                    0 <= q < j ==> vals((#[trigger] list@[q]).values@) == domain.extend(
                        vals(polys[q].values@),
                    ),
            ensures
                j == polys.len(),
            decreases polys.len() - j,
        {
            match self.fresh_poly(i, j) {
                Some(p) => {
                    let coset = domain.coeff_to_extended(p);
                    list.push(coset);
                },
                None => {
                    break;
                },
            }
            j = list.len();
        }
        assert(table_vals(list@) =~= self.fresh_cosets(i as int));
        self.gather(i, list)
    }
}

/// A run of a list of cosets holds what the same run of their polynomials stands for.
proof fn lemma_part(
    domain: EvaluationDomain,
    all: Seq<Polynomial>,
    polys: Seq<Polynomial>,
    from: int,
    p: Seq<Polynomial>,
    q: Seq<Polynomial>,
)
    requires
        all.len() == polys.len(),
        0 <= from,
        from + p.len() <= all.len(),
        p == all.subrange(from, from + p.len()),
        q == polys.subrange(from, from + p.len()),
    ensures
        forall|n: int| #[trigger] cosets_wf(all, n) ==> cosets_wf(p, n),
        table_vals(all) == domain.extend_all(table_vals(polys)) ==> table_vals(p)
            == domain.extend_all(table_vals(q)),
        forall|w: Window|
            table_vals(all) == #[trigger] w.of_all(domain.extend_all(table_vals(polys)))
                ==> table_vals(p) == w.of_all(domain.extend_all(table_vals(q))),
{
    let t = domain.extend_all(table_vals(polys));
    assert forall|n: int| #[trigger] cosets_wf(all, n) implies cosets_wf(p, n) by {
        assert forall|j: int| 0 <= j < p.len() implies coset_wf(#[trigger] p[j], n) by {
            assert(coset_wf(all[from + j], n));
        }
    }
    if table_vals(all) == t {
        assert forall|j: int| 0 <= j < p.len() implies table_vals(p)[j] == domain.extend_all(
            table_vals(q),
        )[j] by {
            assert(table_vals(all)[from + j] == t[from + j]);
        }
        assert(table_vals(p) =~= domain.extend_all(table_vals(q)));
    }
    assert forall|w: Window| table_vals(all) == #[trigger] w.of_all(t) implies table_vals(p)
        == w.of_all(domain.extend_all(table_vals(q))) by {
        assert forall|j: int| 0 <= j < p.len() implies table_vals(p)[j] == w.of_all(
            domain.extend_all(table_vals(q)),
        )[j] by {
            assert(table_vals(all)[from + j] == w.of_all(t)[from + j]);
        }
        assert(table_vals(p) =~= w.of_all(domain.extend_all(table_vals(q))));
    }
}

/// The parts of a list of an instance's cosets, each in its place.
proof fn lemma_gathered(args: QuotientArgs, i: int, all: Seq<Polynomial>, r: Fresh)
    requires
        0 <= i < args.instances(),
        all.len() == args.fresh_polys(i).len(),
        all == r.advice@ + r.instance@ + r.products@ + r.lookup_products@ + r.lookup_inputs@
            + r.lookup_tables@ + r.shuffle_products@,
        r.advice@.len() == args.advice_polys@[i]@.len(),
        r.instance@.len() == args.instance_polys@[i]@.len(),
        r.products@.len() == args.permutations@[i].sets@.len(),
        r.lookup_products@.len() == args.lookups@[i]@.len(),
        r.lookup_inputs@.len() == args.lookups@[i]@.len(),
        r.lookup_tables@.len() == args.lookups@[i]@.len(),
    ensures
        forall|n: int| #[trigger] cosets_wf(all, n) ==> r.wf(n),
        table_vals(all) == args.fresh_cosets(i) ==> r.holds(args.cosets(i)),
        forall|w: Window|
            table_vals(all) == #[trigger] w.of_all(args.fresh_cosets(i)) ==> r.holds(
                w.of_cosets(args.cosets(i)),
            ),
{
    let domain = args.pk.vk.domain;
    let polys = args.fresh_polys(i);
    let sets = args.permutations@[i].sets@;
    let lookups = args.lookups@[i]@;
    let shuffles = args.shuffles@[i]@;
    let q1 = args.advice_polys@[i]@;
    let q2 = args.instance_polys@[i]@;
    let q3 = Seq::new(sets.len(), |j: int| sets[j].permutation_product_poly);
    let q4 = Seq::new(lookups.len(), |j: int| lookups[j].product_poly);
    let q5 = Seq::new(lookups.len(), |j: int| lookups[j].permuted_input_poly);
    let q6 = Seq::new(lookups.len(), |j: int| lookups[j].permuted_table_poly);
    let q7 = Seq::new(shuffles.len(), |j: int| shuffles[j].product_poly);
    assert(polys == q1 + q2 + q3 + q4 + q5 + q6 + q7);
    let n1 = q1.len() as int;
    let n2 = n1 + q2.len();
    let n3 = n2 + q3.len();
    let n4 = n3 + q4.len();
    let n5 = n4 + q5.len();
    let n6 = n5 + q6.len();
    let n7 = n6 + q7.len();
    assert(polys.len() == n7);
    assert(r.shuffle_products@.len() == q7.len());
    assert(q1 =~= polys.subrange(0, n1));
    assert(q2 =~= polys.subrange(n1, n2));
    assert(q3 =~= polys.subrange(n2, n3));
    assert(q4 =~= polys.subrange(n3, n4));
    assert(q5 =~= polys.subrange(n4, n5));
    assert(q6 =~= polys.subrange(n5, n6));
    assert(q7 =~= polys.subrange(n6, n7));
    assert(r.advice@ =~= all.subrange(0, n1));
    assert(r.instance@ =~= all.subrange(n1, n2));
    assert(r.products@ =~= all.subrange(n2, n3));
    assert(r.lookup_products@ =~= all.subrange(n3, n4));
    assert(r.lookup_inputs@ =~= all.subrange(n4, n5));
    assert(r.lookup_tables@ =~= all.subrange(n5, n6));
    assert(r.shuffle_products@ =~= all.subrange(n6, n7));
    lemma_part(domain, all, polys, 0, r.advice@, q1);
    lemma_part(domain, all, polys, n1, r.instance@, q2);
    lemma_part(domain, all, polys, n2, r.products@, q3);
    lemma_part(domain, all, polys, n3, r.lookup_products@, q4);
    lemma_part(domain, all, polys, n4, r.lookup_inputs@, q5);
    lemma_part(domain, all, polys, n5, r.lookup_tables@, q6);
    lemma_part(domain, all, polys, n6, r.shuffle_products@, q7);
    assert(table_vals(q3) =~= set_products(sets));
    assert(table_vals(q4) =~= lookup_products(lookups));
    assert(table_vals(q5) =~= lookup_inputs(lookups));
    assert(table_vals(q6) =~= lookup_tables(lookups));
    assert(table_vals(q7) =~= shuffle_products(shuffles));
}

/// Cosets of a key, or windows of them, with those of an instance.
fn assemble<'b>(
    args: &'b QuotientArgs<'b>,
    fixed: &'b [Polynomial],
    l0: &'b Polynomial,
    l_last: &'b Polynomial,
    l_active_row: &'b Polynomial,
    sigmas: &'b [Polynomial],
    fresh: &'b Fresh,
) -> (r: Cosets<'b>)
    requires
        args.pk.wf(),
    ensures
        r == (Cosets {
            inputs: Inputs {
                fixed,
                advice: r.inputs.advice,
                instance: r.inputs.instance,
                challenges: args.challenges,
                beta: args.beta,
                gamma: args.gamma,
                theta: args.theta,
                y: args.y,
            },
            l0,
            l_last,
            l_active_row,
            columns: r.columns,
            sigmas,
            products: r.products,
            lookup_products: r.lookup_products,
            lookup_inputs: r.lookup_inputs,
            lookup_tables: r.lookup_tables,
            shuffle_products: r.shuffle_products,
            chunk_len: r.chunk_len,
            last_rotation: r.last_rotation,
            extended_omega: args.pk.vk.domain.extended_omega,
        }),
        r.inputs.advice@ == fresh.advice@,
        r.inputs.instance@ == fresh.instance@,
        r.columns@ == args.pk.vk.cs.permutation@,
        r.products@ == fresh.products@,
        r.lookup_products@ == fresh.lookup_products@,
        r.lookup_inputs@ == fresh.lookup_inputs@,
        r.lookup_tables@ == fresh.lookup_tables@,
        r.shuffle_products@ == fresh.shuffle_products@,
        r.chunk_len == args.chunk_len(),
        r.last_rotation == args.last_rotation(),
{
    let cs = &args.pk.vk.cs;
    Cosets {
        inputs: Inputs {
            fixed,
            advice: fresh.advice.as_slice(),
            instance: fresh.instance.as_slice(),
            challenges: args.challenges,
            beta: args.beta,
            gamma: args.gamma,
            theta: args.theta,
            y: args.y,
        },
        l0,
        l_last,
        l_active_row,
        columns: cs.permutation.as_slice(),
        sigmas,
        products: fresh.products.as_slice(),
        lookup_products: fresh.lookup_products.as_slice(),
        lookup_inputs: fresh.lookup_inputs.as_slice(),
        lookup_tables: fresh.lookup_tables.as_slice(),
        shuffle_products: fresh.shuffle_products.as_slice(),
        chunk_len: if cs.degree < 2 {
            0
        } else {
            cs.degree - 2
        },
        last_rotation: -((cs.blinding_factors + 1) as i32),
        extended_omega: args.pk.vk.domain.extended_omega,
    }
}

/// Assembled cosets are ready for a tile.
proof fn lemma_ready(
    args: QuotientArgs,
    ev: Evaluator,
    i: int,
    cosets: Cosets,
    fresh: Fresh,
    place: Place,
    len: int,
)
    requires
        args.wf(ev),
        0 <= i < args.instances(),
        0 < place.isize,
        fresh.wf(place.isize as int),
        fresh.advice@.len() == args.advice_polys@[i]@.len(),
        fresh.instance@.len() == args.instance_polys@[i]@.len(),
        fresh.products@.len() == args.permutations@[i].sets@.len(),
        fresh.lookup_products@.len() == args.lookups@[i]@.len(),
        fresh.lookup_inputs@.len() == args.lookups@[i]@.len(),
        fresh.lookup_tables@.len() == args.lookups@[i]@.len(),
        fresh.shuffle_products@.len() == args.shuffles@[i]@.len(),
        cosets.inputs.challenges == args.challenges,
        cosets.inputs.beta == args.beta,
        cosets.inputs.gamma == args.gamma,
        cosets.inputs.theta == args.theta,
        cosets.inputs.y == args.y,
        cosets.inputs.advice@ == fresh.advice@,
        cosets.inputs.instance@ == fresh.instance@,
        cosets.columns@ == args.pk.vk.cs.permutation@,
        cosets.products@ == fresh.products@,
        cosets.lookup_products@ == fresh.lookup_products@,
        cosets.lookup_inputs@ == fresh.lookup_inputs@,
        cosets.lookup_tables@ == fresh.lookup_tables@,
        cosets.shuffle_products@ == fresh.shuffle_products@,
        cosets.chunk_len == args.chunk_len(),
        cosets.last_rotation == args.last_rotation(),
        cosets.extended_omega == args.pk.vk.domain.extended_omega,
        cosets.inputs.fixed@.len() == args.pk.fixed_cosets@.len(),
        cosets.sigmas@.len() == args.pk.permutation_cosets@.len(),
        cosets_wf(cosets.inputs.fixed@, place.isize as int),
        cosets_wf(cosets.sigmas@, place.isize as int),
        coset_wf(*cosets.l0, place.isize as int),
        coset_wf(*cosets.l_last, place.isize as int),
        coset_wf(*cosets.l_active_row, place.isize as int),
        place.first + len <= place.isize,
        place.start + len <= u64::MAX,
        rotations_fit(ev, args.uses(i), place.first as int, len, place.rot_scale as int),
    ensures
        cosets.ready(ev, place, len),
{
    assert(args.instance_wf(ev, i));
    lemma_columns_of(cosets.inputs.fixed@, place.isize as int);
    lemma_columns_of(fresh.advice@, place.isize as int);
    lemma_columns_of(fresh.instance@, place.isize as int);
    lemma_columns_of(cosets.sigmas@, place.isize as int);
    lemma_columns_of(fresh.products@, place.isize as int);
    lemma_columns_of(fresh.lookup_products@, place.isize as int);
    lemma_columns_of(fresh.lookup_inputs@, place.isize as int);
    lemma_columns_of(fresh.lookup_tables@, place.isize as int);
    lemma_columns_of(fresh.shuffle_products@, place.isize as int);
    let big = args.limits(i, 0x8000_0000);
    assert(limits_of(cosets.inputs) == big);
    assert forall|n: int| 0 <= n < cosets.lookup_products@.len() implies graph_within(
        #[trigger] ev.lookups@[n],
        big,
    ) by {
        assert(n < args.lookups@[i]@.len());
    }
    assert forall|n: int| 0 <= n < 2 * cosets.shuffle_products@.len() implies graph_within(
        #[trigger] ev.shuffles@[n],
        big,
    ) by {
        assert(n < 2 * args.shuffles@[i]@.len());
    }
    if cosets.products@.len() > 0 {
        assert forall|j: int| 0 <= j < cosets.columns@.len() implies big.allows_column(
            #[trigger] cosets.columns@[j],
        ) by {
            assert(big.allows_column(args.pk.vk.cs.permutation@[j]));
        }
    }
    assert(cosets.uses() == args.uses(i));
}

/// The largest rotation in use bounds those of every graph that an instance needs.
proof fn lemma_covered(args: QuotientArgs, ev: Evaluator, i: int)
    requires
        args.wf(ev),
        0 <= i < args.instances(),
    ensures
        ({
            let lim = args.limits(i, args.max_rotation(ev));
            &&& graph_within(ev.custom_gates, lim)
            &&& forall|n: int|
                0 <= n < args.lookups@[i]@.len() ==> graph_within(#[trigger] ev.lookups@[n], lim)
            &&& forall|n: int|
                0 <= n < 2 * args.shuffles@[i]@.len() ==> graph_within(
                    #[trigger] ev.shuffles@[n],
                    lim,
                )
        }),
{
    let big = args.limits(i, 0x8000_0000);
    let lim = args.limits(i, args.max_rotation(ev));
    assert(args.instance_wf(ev, i));
    lemma_within_rotation(ev.custom_gates, big, lim);
    assert forall|n: int| 0 <= n < args.lookups@[i]@.len() implies graph_within(
        #[trigger] ev.lookups@[n],
        lim,
    ) by {
        assert(args.has_lookup());
        lemma_largest_of_bounds(ev.lookups@, n);
        lemma_within_rotation(ev.lookups@[n], big, lim);
    }
    assert forall|n: int| 0 <= n < 2 * args.shuffles@[i]@.len() implies graph_within(
        #[trigger] ev.shuffles@[n],
        lim,
    ) by {
        assert(args.shuffles@[i]@.len() > 0);
        assert(args.has_shuffle());
        lemma_largest_of_bounds(ev.shuffles@, n);
        lemma_within_rotation(ev.shuffles@[n], big, lim);
    }
}

/// Rotations up to the largest in use can be counted from the rows between two margins.
proof fn lemma_margin_fits(args: QuotientArgs, ev: Evaluator, i: int, len: int)
    requires
        args.wf(ev),
        0 <= i < args.instances(),
        0 < len,
        len + 2 * args.halo(ev) <= i32::MAX,
    ensures
        rotations_fit(ev, args.uses(i), args.halo(ev), len, args.pk.vk.domain.scale()),
{
    let m = args.max_rotation(ev);
    let scale = args.pk.vk.domain.scale();
    let halo = args.halo(ev);
    lemma_halo_nonneg(args, ev);
    lemma_small_power((args.pk.vk.domain.extended_k - args.pk.vk.domain.k) as nat);
    assert forall|r: int| -m <= r <= m implies #[trigger] rotation_fits_all(
        halo,
        len,
        r,
        scale,
    ) by {
        assert(-(m * scale) <= r * scale <= m * scale) by (nonlinear_arith)
            requires
                -m <= r <= m,
                0 < scale,
        ;
    }
    lemma_covered(args, ev, i);
    lemma_full_rows(args, ev, i);
    let c = args.cosets(i);
    assert(c.products.len() == args.uses(i).sets);
    assert(c.lookup_products.len() == args.uses(i).lookups);
    assert(c.shuffle_products.len() == args.uses(i).shuffles);
    let lim = args.limits(i, m);
    assert forall|g: GraphEvaluator| #[trigger] graph_within(g, lim) implies graph_fits(
        g,
        halo,
        len,
        scale,
    ) by {
        assert forall|j: int| 0 <= j < g.rotations@.len() implies rotation_fits_all(
            halo,
            len,
            #[trigger] g.rotations@[j] as int,
            scale,
        ) by {
            assert(lim.allows_rotation(g.rotations@[j] as int));
        }
    }
}

pub proof fn lemma_largest_nonneg(rotations: Seq<i32>)
    ensures
        largest(rotations) >= 0,
    decreases rotations.len(),
{
    if rotations.len() > 0 {
        lemma_largest_nonneg(rotations.drop_last());
    }
}

proof fn lemma_columns_of(p: Seq<Polynomial>, n: int)
    requires
        cosets_wf(p, n),
    ensures
        columns_wf(p),
        rows_at_least(p, n),
        all_rows(table_vals(p), n),
{
    assert forall|c: int| 0 <= c < p.len() implies canonical_all(#[trigger] p[c].values@) by {
        assert(coset_wf(p[c], n));
    }
    assert forall|c: int| 0 <= c < p.len() implies n <= (#[trigger] p[c]).values@.len() by {
        assert(coset_wf(p[c], n));
    }
    assert forall|c: int| 0 <= c < table_vals(p).len() implies (#[trigger] table_vals(
        p,
    )[c]).len() == n by {
        assert(coset_wf(p[c], n));
    }
}

/// The quotient over the whole domain, every coset resident.
pub fn quotient_in_core(ev: &Evaluator, args: &QuotientArgs) -> (r: Polynomial)
    requires
        args.wf(*ev),
        args.rows_fit(*ev),
    ensures
        canonical_all(r.values@),
        r.values@.len() == args.pk.vk.domain.size(),
        forall|row: int|
            0 <= row < r.values@.len() ==> val(#[trigger] r.values@[row]) == args.quotient(
                *ev,
                row,
                args.instances(),
            ),
{
    let pk = args.pk;
    let size = pk.vk.domain.extended_len();
    let rot_scale = pk.vk.domain.rot_scale();
    let n = args.count();
    let mut values = zeros(size);
    let place = Place { first: 0, rot_scale, isize: size as i32, start: 0 };
    for i in 0..n
        invariant
            args.wf(*ev),
            n == args.instances(),
            *pk == *args.pk,
            size == pk.vk.domain.size(),
            0 < size <= 0x4000_0000,
            rot_scale == pk.vk.domain.scale(),
            0 < rot_scale,
            args.rows_fit(*ev),
            place == (Place { first: 0, rot_scale, isize: size as i32, start: 0 }),
            values@.len() == size,
            canonical_all(values@),
            forall|row: int|
                0 <= row < size ==> val(#[trigger] values@[row]) == args.quotient(
                    *ev,
                    row,
                    i as nat,
                ),
    {
        assert(args.instance_wf(*ev, i as int));
        let fresh = args.extend_instance(i);
        let cosets = assemble(
            args,
            pk.fixed_cosets.as_slice(),
            &pk.l0,
            &pk.l_last,
            &pk.l_active_row,
            pk.permutation_cosets.as_slice(),
            &fresh,
        );
        proof {
            lemma_fresh_lens(*args, i as int, fresh, args.cosets(i as int));
            assert(args.instance_fits(*ev, i as int));
            lemma_ready(*args, *ev, i as int, cosets, fresh, place, size as int);
        }
        let ghost before = values@;
        evaluate_tile(ev, &cosets, &mut values, place);
        proof {
            assert(cosets.model() == args.cosets(i as int));
            assert forall|row: int| 0 <= row < size implies val(#[trigger] values@[row])
                == args.quotient(*ev, row, (i + 1) as nat) by {
                assert(cosets.row(place, row) == args.row(i as int, row));
                assert(val(before[row]) == args.quotient(*ev, row, i as nat));
            }
        }
    }
    Polynomial { values }
}

/// The cosets of an instance are as many as its polynomials.
proof fn lemma_fresh_lens(args: QuotientArgs, i: int, fresh: Fresh, c: CosetVals)
    requires
        fresh.holds(c),
        c.tables.advice.len() == args.advice_polys@[i]@.len(),
        c.tables.instance.len() == args.instance_polys@[i]@.len(),
        c.products.len() == args.permutations@[i].sets@.len(),
        c.lookup_products.len() == args.lookups@[i]@.len(),
        c.lookup_inputs.len() == args.lookups@[i]@.len(),
        c.lookup_tables.len() == args.lookups@[i]@.len(),
        c.shuffle_products.len() == args.shuffles@[i]@.len(),
    ensures
        fresh.advice@.len() == args.advice_polys@[i]@.len(),
        fresh.instance@.len() == args.instance_polys@[i]@.len(),
        fresh.products@.len() == args.permutations@[i].sets@.len(),
        fresh.lookup_products@.len() == args.lookups@[i]@.len(),
        fresh.lookup_inputs@.len() == args.lookups@[i]@.len(),
        fresh.lookup_tables@.len() == args.lookups@[i]@.len(),
        fresh.shuffle_products@.len() == args.shuffles@[i]@.len(),
{
    assert(table_vals(fresh.advice@).len() == fresh.advice@.len());
    assert(table_vals(fresh.instance@).len() == fresh.instance@.len());
    assert(table_vals(fresh.products@).len() == fresh.products@.len());
    assert(table_vals(fresh.lookup_products@).len() == fresh.lookup_products@.len());
    assert(table_vals(fresh.lookup_inputs@).len() == fresh.lookup_inputs@.len());
    assert(table_vals(fresh.lookup_tables@).len() == fresh.lookup_tables@.len());
    assert(table_vals(fresh.shuffle_products@).len() == fresh.shuffle_products@.len());
}

/// The window of a tile, by the domain's tiling geometry.
pub open spec fn window(spec: TileSpec, start: int, len: int) -> Window {
    Window { size: spec.size as int, start, len, halo: spec.halo as int }
}

/// A window of a coset.
fn coset_window(spec: &TileSpec, coset: &Polynomial, start: usize, len: usize) -> (r: Polynomial)
    requires
        coset_wf(*coset, spec.size as int),
        0 < spec.size <= 0x4000_0000,
        start + len <= spec.size,
        len + 2 * spec.halo <= i32::MAX,
    ensures
        coset_wf(r, len + 2 * spec.halo),
        vals(r.values@) == window(*spec, start as int, len as int).of(vals(coset.values@)),
{
    let values = spec.window(coset.values.as_slice(), start, len);
    let ghost rows = window_rows(
        spec.size as int,
        start as int,
        spec.halo as int,
        len + 2 * spec.halo,
    );
    proof {
        assert forall|j: int| 0 <= j < values@.len() implies #[trigger] canonical(
            values@[j],
        ) by {
            vstd::arithmetic::div_mod::lemma_mod_bound(
                start - spec.halo + j,
                spec.size as int,
            );
            assert(values@[j] == coset.values@[rows[j]]);
            assert(canonical(coset.values@[rows[j]]));
        }
        let w = window(*spec, start as int, len as int);
        assert forall|j: int| 0 <= j < values@.len() implies vals(values@)[j] == w.of(
            vals(coset.values@),
        )[j] by {
            vstd::arithmetic::div_mod::lemma_mod_bound(
                start - spec.halo + j,
                spec.size as int,
            );
        }
        assert(vals(values@) =~= w.of(vals(coset.values@)));
    }
    Polynomial { values }
}

/// Windows of several cosets.
fn coset_windows(spec: &TileSpec, cosets: &[Polynomial], start: usize, len: usize) -> (r: Vec<
    Polynomial,
>)
    requires
        cosets_wf(cosets@, spec.size as int),
        0 < spec.size <= 0x4000_0000,
        start + len <= spec.size,
        len + 2 * spec.halo <= i32::MAX,
    ensures
        cosets_wf(r@, len + 2 * spec.halo),
        table_vals(r@) == window(*spec, start as int, len as int).of_all(table_vals(cosets@)),
{
    let mut r: Vec<Polynomial> = Vec::with_capacity(cosets.len());
    for i in 0..cosets.len()
        invariant
            cosets_wf(cosets@, spec.size as int),
            0 < spec.size <= 0x4000_0000,
            start + len <= spec.size,
            len + 2 * spec.halo <= i32::MAX,
            r@.len() == i,
            cosets_wf(r@, len + 2 * spec.halo),
            forall|j: int|
                0 <= j < i ==> vals((#[trigger] r@[j]).values@) == window(
                    *spec,
                    start as int,
                    len as int,
                ).of(vals(cosets@[j].values@)),
    {
        assert(coset_wf(cosets@[i as int], spec.size as int));
        let p = coset_window(spec, &cosets[i], start, len);
        r.push(p);
    }
    assert(table_vals(r@) =~= window(*spec, start as int, len as int).of_all(table_vals(cosets@)));
    r
}

impl Fresh {
    /// Windows of the cosets.
    pub fn windows(&self, spec: &TileSpec, start: usize, len: usize) -> (r: Fresh)
        requires
            self.wf(spec.size as int),
            0 < spec.size <= 0x4000_0000,
            start + len <= spec.size,
            len + 2 * spec.halo <= i32::MAX,
        ensures
            r.wf(len + 2 * spec.halo),
            forall|c: CosetVals| #[trigger]
                self.holds(c) ==> r.holds(window(*spec, start as int, len as int).of_cosets(c)),
    {
        Fresh {
            advice: coset_windows(spec, self.advice.as_slice(), start, len),
            instance: coset_windows(spec, self.instance.as_slice(), start, len),
            products: coset_windows(spec, self.products.as_slice(), start, len),
            lookup_products: coset_windows(spec, self.lookup_products.as_slice(), start, len),
            lookup_inputs: coset_windows(spec, self.lookup_inputs.as_slice(), start, len),
            lookup_tables: coset_windows(spec, self.lookup_tables.as_slice(), start, len),
            shuffle_products: coset_windows(spec, self.shuffle_products.as_slice(), start, len),
        }
    }
}

impl<'a> QuotientArgs<'a> {
    /// The tiling geometry of the quotient.
    pub open spec fn is_tiling(&self, ev: Evaluator, spec: TileSpec) -> bool {
        &&& spec.size == self.pk.vk.domain.size()
        &&& spec.rot_scale == self.pk.vk.domain.scale()
        &&& spec.halo == self.halo(ev)
    }

    /// The tiling geometry of the quotient: a margin that covers every rotation in use.
    pub fn tiling(&self, ev: &Evaluator) -> (r: TileSpec)
        requires
            self.pk.wf(),
            self.halo(*ev) <= i32::MAX,
        ensures
            self.is_tiling(*ev, r),
            0 < r.size <= 0x4000_0000,
            0 < r.rot_scale,
    {
        let size = self.pk.vk.domain.extended_len();
        let rot_scale = self.pk.vk.domain.rot_scale();
        let rotation = self.largest_in_use(ev);
        TileSpec::new(size, rot_scale, rotation)
    }
}

/// Fold every term of one instance into a tile, given windows of the cosets that the instance
/// adds to those of the key. `start` is the tile's first row.
pub fn evaluate_window(
    ev: &Evaluator,
    args: &QuotientArgs,
    i: usize,
    spec: &TileSpec,
    fresh: &Fresh,
    tile: &mut Vec<Fr>,
    start: usize,
)
    requires
        args.wf(*ev),
        i < args.instances(),
        args.is_tiling(*ev, *spec),
        start + old(tile)@.len() <= spec.size,
        old(tile)@.len() > 0,
        old(tile)@.len() + 2 * spec.halo <= i32::MAX,
        canonical_all(old(tile)@),
        fresh.wf(old(tile)@.len() + 2 * spec.halo),
        fresh.holds(
            window(*spec, start as int, old(tile)@.len() as int).of_cosets(args.cosets(i as int)),
        ),
    ensures
        final(tile)@.len() == old(tile)@.len(),
        canonical_all(final(tile)@),
        forall|j: int| #![trigger final(tile)@[j]]
            0 <= j < old(tile)@.len() ==> val(final(tile)@[j]) == row_value(
                *ev,
                args.row(i as int, start + j),
                args.chunk_len(),
                val(old(tile)@[j]),
            ),
{
    let pk = args.pk;
    let len = tile.len();
    let ghost rotation = args.max_rotation(*ev);
    proof {
        lemma_halo_nonneg(*args, *ev);
        lemma_small_power(pk.vk.domain.extended_k as nat);
        lemma_small_power((pk.vk.domain.extended_k - pk.vk.domain.k) as nat);
    }
    let wl: usize = len + 2 * spec.halo;
    let fixed = coset_windows(spec, pk.fixed_cosets.as_slice(), start, len);
    let l0 = coset_window(spec, &pk.l0, start, len);
    let l_last = coset_window(spec, &pk.l_last, start, len);
    let l_active_row = coset_window(spec, &pk.l_active_row, start, len);
    let sigmas = coset_windows(spec, pk.permutation_cosets.as_slice(), start, len);
    let cosets = assemble(
        args,
        fixed.as_slice(),
        &l0,
        &l_last,
        &l_active_row,
        sigmas.as_slice(),
        fresh,
    );
    let place = Place { first: spec.halo, rot_scale: spec.rot_scale, isize: wl as i32, start };
    let ghost w = window(*spec, start as int, len as int);
    let ghost full = args.cosets(i as int);
    proof {
        assert(table_vals(fixed@).len() == fixed@.len());
        assert(table_vals(sigmas@).len() == sigmas@.len());
        assert(table_vals(pk.fixed_cosets@).len() == pk.fixed_cosets@.len());
        assert(table_vals(pk.permutation_cosets@).len() == pk.permutation_cosets@.len());
        lemma_fresh_lens(*args, i as int, *fresh, w.of_cosets(full));
        lemma_margin_fits(*args, *ev, i as int, len as int);
        lemma_ready(*args, *ev, i as int, cosets, *fresh, place, len as int);
    }
    let ghost before = tile@;
    evaluate_tile(ev, &cosets, tile, place);
    proof {
        assert(cosets.model() == w.of_cosets(full));
        lemma_full_rows(*args, *ev, i as int);
        let lim = args.limits(i as int, rotation);
        lemma_covered(*args, *ev, i as int);
        assert forall|j: int| #![trigger tile@[j]] 0 <= j < len implies val(tile@[j]) == row_value(
            *ev,
            args.row(i as int, start + j),
            args.chunk_len(),
            val(before[j]),
        ) by {
            let x = fpow(val(pk.vk.domain.extended_omega), (start + j) as nat);
            law_window_row(w, full, j, spec.rot_scale as int, rotation, x);
            let a = cosets.row(place, j);
            let b = args.row(i as int, start + j);
            assert(a == w.of_cosets(full).row(w.halo + j, spec.rot_scale as int, w.rows(), x));
            assert(b == full.row(w.start + j, spec.rot_scale as int, w.size, x));
            law_row_value_local(*ev, a, b, args.chunk_len(), val(before[j]), lim);
        }
    }
}

/// The cosets of an instance have the rows of the domain, and rotations that its margin
/// covers.
proof fn lemma_full_rows(args: QuotientArgs, ev: Evaluator, i: int)
    requires
        args.wf(ev),
        0 <= i < args.instances(),
    ensures
        cosets_rows(args.cosets(i), args.pk.vk.domain.size()),
        ({
            let c = args.cosets(i);
            let rotation = args.max_rotation(ev);
            &&& c.products.len() > 0 ==> 1 <= rotation && -rotation <= c.last_rotation <= rotation
            &&& c.lookup_products.len() > 0 ==> 1 <= rotation
            &&& c.lookup_inputs.len() == c.lookup_products.len()
            &&& c.shuffle_products.len() > 0 ==> 1 <= rotation
        }),
{
    let size = args.pk.vk.domain.size();
    let c = args.cosets(i);
    lemma_columns_of(args.pk.fixed_cosets@, size);
    lemma_columns_of(args.pk.permutation_cosets@, size);
    lemma_small_power(args.pk.vk.domain.extended_k as nat);
    assert forall|p: Seq<int>| (#[trigger] args.pk.vk.domain.extend(p)).len() == size by {}
    if c.products.len() > 0 {
        assert(args.permutations@[i].sets@.len() > 0);
        assert(args.has_permutation());
    }
    if c.lookup_products.len() > 0 {
        assert(args.lookups@[i]@.len() > 0);
        assert(args.has_lookup());
    }
    if c.shuffle_products.len() > 0 {
        assert(args.shuffles@[i]@.len() > 0);
        assert(args.has_shuffle());
    }
}

/// A pass over the tiles of the domain, once for each instance.
#[derive(Clone, Copy, Debug)]
pub struct TileCursor {
    pub size: usize,
    pub tile: usize,
    pub instances: usize,
    pub instance: usize,
    pub start: usize,
}

impl TileCursor {
    pub open spec fn wf(&self) -> bool {
        &&& 0 < self.size
        &&& 0 < self.tile
        &&& self.instance <= self.instances
        &&& self.start < self.size
        &&& self.instance == self.instances ==> self.start == 0
    }

    /// The rows of the current tile.
    pub open spec fn rows(&self) -> int {
        if self.tile < self.size - self.start {
            self.tile as int
        } else {
            self.size - self.start
        }
    }

    /// The number of instances whose terms a row has had.
    pub open spec fn passes(&self, row: int) -> nat {
        if row < self.start {
            (self.instance + 1) as nat
        } else {
            self.instance as nat
        }
    }

    /// Before the first tile of the first instance.
    pub fn new(size: usize, tile: usize, instances: usize) -> (r: Self)
        requires
            0 < size,
            0 < tile,
        ensures
            r == (TileCursor { size, tile, instances, instance: 0, start: 0 }),
            r.wf(),
    {
        TileCursor { size, tile, instances, instance: 0, start: 0 }
    }

    /// The current tile's instance, first row and number of rows; nothing once every instance
    /// has passed.
    pub fn current(&self) -> (r: Option<(usize, usize, usize)>)
        requires
            self.wf(),
        ensures
            r is None <==> self.instance == self.instances,
            r matches Some((i, start, len)) ==> i == self.instance && start == self.start && len
                == self.rows(),
            r matches Some((_, start, len)) ==> 0 < len <= self.tile && start + len <= self.size && (
            len == self.tile || start + len == self.size),
    {
        if self.instance == self.instances {
            return None;
        }
        let left: usize = self.size - self.start;
        let len: usize = if self.tile < left {
            self.tile
        } else {
            left
        };
        Some((self.instance, self.start, len))
    }

    /// Move on to the next tile.
    pub fn advance(&mut self)
        requires
            old(self).wf(),
            old(self).instance < old(self).instances,
        ensures
            final(self).wf(),
            final(self).size == old(self).size,
            final(self).tile == old(self).tile,
            final(self).instances == old(self).instances,
            old(self).start + old(self).rows() < old(self).size ==> final(self).instance
                == old(self).instance && final(self).start == old(self).start + old(self).rows(),
            old(self).start + old(self).rows() == old(self).size ==> final(self).instance
                == old(self).instance + 1 && final(self).start == 0,
    {
        let left: usize = self.size - self.start;
        if self.tile < left {
            self.start = self.start + self.tile;
        } else {
            self.start = 0;
            self.instance = self.instance + 1;
        }
    }
}

/// Moving on past a tile gives its rows, and no others, one more instance.
pub proof fn law_cursor_step(a: TileCursor, b: TileCursor, row: int)
    requires
        a.wf(),
        a.instance < a.instances,
        a.start + a.rows() < a.size ==> b.instance == a.instance && b.start == a.start + a.rows(),
        a.start + a.rows() == a.size ==> b.instance == a.instance + 1 && b.start == 0,
        0 <= row < a.size,
    ensures
        b.passes(row) == a.passes(row) + (if a.start <= row < a.start + a.rows() {
            1int
        } else {
            0
        }),
        a.start <= row < a.start + a.rows() ==> a.passes(row) == a.instance,
{
}

/// A run of values.
fn run_of(values: &Vec<Fr>, start: usize, len: usize) -> (r: Vec<Fr>)
    requires
        start + len <= values@.len(),
        canonical_all(values@),
    ensures
        r@ == values@.subrange(start as int, start + len),
        canonical_all(r@),
{
    let held: usize = values.len();
    let mut r: Vec<Fr> = Vec::with_capacity(len);
    for j in 0..len
        invariant
            held == values@.len(),
            start + len <= held,
            canonical_all(values@),
            r@.len() == j,
            canonical_all(r@),
            forall|q: int| 0 <= q < j ==> r@[q] == values@[start + q],
    {
        assert(canonical(values@[start + j]));
        r.push(values[start + j]);
    }
    assert(r@ =~= values@.subrange(start as int, start + len));
    r
}

/// Put a run of values back.
fn put_run(values: &mut Vec<Fr>, run: &Vec<Fr>, start: usize)
    requires
        start + run@.len() <= old(values)@.len(),
        canonical_all(old(values)@),
        canonical_all(run@),
    ensures
        final(values)@.len() == old(values)@.len(),
        canonical_all(final(values)@),
        forall|q: int| #![trigger final(values)@[q]]
            0 <= q < old(values)@.len() ==> final(values)@[q] == (if start <= q < start
                + run@.len() {
                run@[q - start]
            } else {
                old(values)@[q]
            }),
{
    let ghost before = values@;
    let held: usize = values.len();
    for j in 0..run.len()
        invariant
            held == values@.len(),
            before.len() == held,
            start + run@.len() <= held,
            canonical_all(values@),
            canonical_all(run@),
            forall|q: int| #![trigger values@[q]]
                0 <= q < held ==> values@[q] == (if start <= q < start + j {
                    run@[q - start]
                } else {
                    before[q]
                }),
    {
        assert(canonical(run@[j as int]));
        values[start + j] = run[j];
    }
}

/// The quotient over the whole domain, a tile at a time: only windows of the cosets meet the
/// graphs.
pub fn quotient_tiled(ev: &Evaluator, args: &QuotientArgs, tile: usize) -> (r: Polynomial)
    requires
        args.wf(*ev),
        args.tiles_fit(*ev, tile as int),
    ensures
        canonical_all(r.values@),
        r.values@.len() == args.pk.vk.domain.size(),
        forall|row: int|
            0 <= row < r.values@.len() ==> val(#[trigger] r.values@[row]) == args.quotient(
                *ev,
                row,
                args.instances(),
            ),
{
    let n = args.count();
    proof {
        lemma_small_power(args.pk.vk.domain.extended_k as nat);
        lemma_halo_nonneg(*args, *ev);
    }
    if n == 0 {
        return Polynomial { values: zeros(args.pk.vk.domain.extended_len()) };
    }
    let spec = args.tiling(ev);
    let size = spec.size;
    let mut values = zeros(size);
    let mut cursor = TileCursor::new(size, tile, n);
    for i in 0..n
        invariant
            args.wf(*ev),
            n == args.instances(),
            args.is_tiling(*ev, spec),
            size == spec.size,
            0 < size <= 0x4000_0000,
            0 < tile,
            tile_rows(tile as int, size as int) + 2 * spec.halo <= i32::MAX,
            cursor.wf(),
            cursor == (TileCursor { size, tile, instances: n, instance: i, start: 0 }),
            values@.len() == size,
            canonical_all(values@),
            forall|row: int|
                0 <= row < size ==> val(#[trigger] values@[row]) == args.quotient(
                    *ev,
                    row,
                    i as nat,
                ),
    {
        assert(args.instance_wf(*ev, i as int));
        let fresh = args.extend_instance(i);
        let mut s: usize = 0;
        while s < size
            invariant
                args.wf(*ev),
                i < n,
                n == args.instances(),
                args.is_tiling(*ev, spec),
                size == spec.size,
                0 < size <= 0x4000_0000,
                0 < tile,
                tile_rows(tile as int, size as int) + 2 * spec.halo <= i32::MAX,
                fresh.wf(size as int),
                fresh.holds(args.cosets(i as int)),
                s <= size,
                s < size ==> cursor == (TileCursor { size, tile, instances: n, instance: i, start: s }),
                s == size ==> cursor == (TileCursor {
                    size,
                    tile,
                    instances: n,
                    instance: (i + 1) as usize,
                    start: 0,
                }),
                cursor.wf(),
                values@.len() == size,
                canonical_all(values@),
                forall|row: int|
                    0 <= row < size ==> val(#[trigger] values@[row]) == args.quotient(
                        *ev,
                        row,
                        cursor.passes(row),
                    ),
            decreases size - s,
        {
            let ghost before = cursor;
            let len = match cursor.current() {
                Some((_, _, len)) => len,
                None => 0,
            };
            let mut tv = run_of(&values, s, len);
            let windows = fresh.windows(&spec, s, len);
            let ghost old_tv = tv@;
            evaluate_window(ev, args, i, &spec, &windows, &mut tv, s);
            let ghost old_values = values@;
            put_run(&mut values, &tv, s);
            cursor.advance();
            s = s + len;
            proof {
                assert forall|row: int| 0 <= row < size implies val(#[trigger] values@[row])
                    == args.quotient(*ev, row, cursor.passes(row)) by {
                    law_cursor_step(before, cursor, row);
                    assert(val(old_values[row]) == args.quotient(*ev, row, before.passes(row)));
                    if before.start <= row < before.start + len {
                        assert(old_tv[row - before.start] == old_values[row]);
                        assert(values@[row] == tv@[row - before.start]);
                    }
                }
            }
        }
    }
    Polynomial { values }
}

pub proof fn lemma_halo_nonneg(args: QuotientArgs, ev: Evaluator)
    requires
        args.pk.wf(),
    ensures
        0 <= args.max_rotation(ev),
        0 <= args.halo(ev),
{
    lemma_largest_nonneg(ev.custom_gates.rotations@);
    lemma_small_power((args.pk.vk.domain.extended_k - args.pk.vk.domain.k) as nat);
    lemma_mul_nonnegative(args.max_rotation(ev), args.pk.vk.domain.scale());
}

} // verus!
