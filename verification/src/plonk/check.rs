//! Checks that a quotient can be computed from what is given.

use vstd::arithmetic::power2::*;
use vstd::prelude::*;

use crate::field::{
    all_canonical, canonical, fr_eq, fr_from_u64, fr_one, fr_zero, is_canonical, is_primitive_root,
};
use crate::plonk::circuit::{rotation_fits_all, Any, ColumnMid, Limits, Polynomial};
use crate::plonk::evaluate::{
    coset_wf, cosets_wf, lemma_small_power, CommittedSet, EvaluationDomain, LookupCommitted,
    ProvingKey, QuotientArgs, ShuffleCommitted,
};
use crate::plonk::evaluator::Evaluator;
use crate::plonk::graph::{
    each_source, graph_fits, graph_within, same_calc, source_within, Calculation, GraphEvaluator,
    ValueSource,
};
use crate::powers::two_to;

verus! {

/// Numbers of columns and challenges.
#[derive(Clone, Copy, Debug)]
pub struct Columns {
    pub fixed: usize,
    pub advice: usize,
    pub instance: usize,
    pub challenges: usize,
}

impl Columns {
    /// The bounds that they set; every rotation is allowed.
    pub open spec fn limits(&self) -> Limits {
        Limits {
            fixed: self.fixed as int,
            advice: self.advice as int,
            instance: self.instance as int,
            challenges: self.challenges as int,
            rotation: 0x8000_0000,
        }
    }

    fn has_source(&self, s: &ValueSource) -> (r: bool)
        ensures
            r == source_within(*s, self.limits()),
    {
        match s {
            ValueSource::Fixed(c, _) => *c < self.fixed,
            ValueSource::Advice(c, _) => *c < self.advice,
            ValueSource::Instance(c, _) => *c < self.instance,
            ValueSource::Challenge(i) => *i < self.challenges,
            _ => true,
        }
    }

    fn has_sources(&self, s: &Vec<ValueSource>) -> (r: bool)
        ensures
            r == forall|i: int|
                0 <= i < s@.len() ==> source_within(#[trigger] s@[i], self.limits()),
    {
        for i in 0..s.len()
            invariant
                forall|j: int| 0 <= j < i ==> source_within(#[trigger] s@[j], self.limits()),
        {
            if !self.has_source(&s[i]) {
                assert(!source_within(s@[i as int], self.limits()));
                return false;
            }
        }
        true
    }

    fn has_column(&self, c: &ColumnMid) -> (r: bool)
        ensures
            r == self.limits().allows_column(*c),
    {
        match c.column_type {
            Any::Fixed => c.index < self.fixed,
            Any::Advice => c.index < self.advice,
            Any::Instance => c.index < self.instance,
        }
    }

    fn has_calculation(&self, c: &Calculation) -> (r: bool)
        ensures
            r == each_source(*c, |s: ValueSource| source_within(s, self.limits())),
    {
        match c {
            Calculation::Add(a, b) => self.has_source(a) && self.has_source(b),
            Calculation::Sub(a, b) => self.has_source(a) && self.has_source(b),
            Calculation::Mul(a, b) => self.has_source(a) && self.has_source(b),
            Calculation::Square(a) => self.has_source(a),
            Calculation::Double(a) => self.has_source(a),
            Calculation::Negate(a) => self.has_source(a),
            Calculation::Horner(a, parts, f) => self.has_source(a) && self.has_source(f)
                && self.has_sources(parts),
            Calculation::Store(a) => self.has_source(a),
        }
    }

    /// Whether a graph looks only at columns and challenges that are there.
    pub fn has_graph(&self, g: &GraphEvaluator) -> (r: bool)
        ensures
            r == graph_within(*g, self.limits()),
    {
        for i in 0..g.calculations.len()
            invariant
                forall|j: int|
                    0 <= j < i ==> each_source(
                        (#[trigger] g.calculations@[j]).calculation,
                        |s: ValueSource| source_within(s, self.limits()),
                    ),
        {
            if !self.has_calculation(&g.calculations[i].calculation) {
                assert(!each_source(
                    g.calculations@[i as int].calculation,
                    |s: ValueSource| source_within(s, self.limits()),
                ));
                return false;
            }
        }
        true
    }
}

impl GraphEvaluator {
    fn is_known(&self, s: &ValueSource, n: usize) -> (r: bool)
        ensures
            r == self.knows(*s, n as int),
    {
        match s {
            ValueSource::Constant(i) => *i < self.constants.len(),
            ValueSource::Intermediate(i) => *i < n,
            ValueSource::Fixed(_, r) => *r < self.rotations.len(),
            ValueSource::Advice(_, r) => *r < self.rotations.len(),
            ValueSource::Instance(_, r) => *r < self.rotations.len(),
            _ => true,
        }
    }

    fn are_known(&self, s: &Vec<ValueSource>, n: usize) -> (r: bool)
        ensures
            r == forall|i: int| 0 <= i < s@.len() ==> self.knows(#[trigger] s@[i], n as int),
    {
        for i in 0..s.len()
            invariant
                forall|j: int| 0 <= j < i ==> self.knows(#[trigger] s@[j], n as int),
        {
            if !self.is_known(&s[i], n) {
                assert(!self.knows(s@[i as int], n as int));
                return false;
            }
        }
        true
    }

    /// Whether a calculation uses only what the graph has before its `n`-th calculation.
    fn is_grounded(&self, c: &Calculation, n: usize) -> (r: bool)
        ensures
            r == each_source(*c, |s: ValueSource| self.knows(s, n as int)),
    {
        match c {
            Calculation::Add(a, b) => self.is_known(a, n) && self.is_known(b, n),
            Calculation::Sub(a, b) => self.is_known(a, n) && self.is_known(b, n),
            Calculation::Mul(a, b) => self.is_known(a, n) && self.is_known(b, n),
            Calculation::Square(a) => self.is_known(a, n),
            Calculation::Double(a) => self.is_known(a, n),
            Calculation::Negate(a) => self.is_known(a, n),
            Calculation::Horner(a, parts, f) => self.is_known(a, n) && self.is_known(f, n)
                && self.are_known(parts, n),
            Calculation::Store(a) => self.is_known(a, n),
        }
    }

    /// Whether no calculation before the `n`-th is the same as it.
    fn is_new(&self, n: usize) -> (r: bool)
        requires
            n < self.calculations@.len(),
        ensures
            r == forall|i: int|
                0 <= i < n ==> !same_calc(
                    (#[trigger] self.calculations@[i]).calculation,
                    self.calculations@[n as int].calculation,
                ),
    {
        for i in 0..n
            invariant
                n < self.calculations@.len(),
                forall|j: int|
                    0 <= j < i ==> !same_calc(
                        (#[trigger] self.calculations@[j]).calculation,
                        self.calculations@[n as int].calculation,
                    ),
        {
            if self.calculations[i].calculation.is_same(&self.calculations[n].calculation) {
                assert(same_calc(
                    self.calculations@[i as int].calculation,
                    self.calculations@[n as int].calculation,
                ));
                return false;
            }
        }
        true
    }

    /// Whether the graph is in order.
    pub fn check(&self) -> (r: bool)
        ensures
            r == self.wf(),
    {
        let constants = &self.constants;
        if constants.len() < 3 || !all_canonical(constants.as_slice()) {
            return false;
        }
        let two = fr_from_u64(2);
        assert(canonical(constants@[0]) && canonical(constants@[1]) && canonical(constants@[2]));
        if !(fr_eq(&constants[0], &fr_zero()) && fr_eq(&constants[1], &fr_one()) && fr_eq(
            &constants[2],
            &two,
        ) && self.num_intermediates == self.calculations.len()) {
            return false;
        }
        for n in 0..self.calculations.len()
            invariant
                forall|i: int|
                    0 <= i < n ==> (#[trigger] self.calculations@[i]).target == i,
                forall|i: int|
                    0 <= i < n ==> each_source(
                        (#[trigger] self.calculations@[i]).calculation,
                        |s: ValueSource| self.knows(s, i),
                    ),
                forall|i: int, j: int|
                    0 <= i < j < n ==> !same_calc(
                        (#[trigger] self.calculations@[i]).calculation,
                        (#[trigger] self.calculations@[j]).calculation,
                    ),
        {
            let c = &self.calculations[n];
            if c.target != n {
                assert(self.calculations@[n as int].target != n);
                return false;
            }
            if !self.is_grounded(&c.calculation, n) {
                assert(!each_source(
                    self.calculations@[n as int].calculation,
                    |s: ValueSource| self.knows(s, n as int),
                ));
                return false;
            }
            if !self.is_new(n) {
                return false;
            }
        }
        true
    }

    /// Whether every rotation can be counted from each of `len` rows.
    fn fits_all(&self, len: usize, rot_scale: i32) -> (r: bool)
        requires
            len <= 0x4000_0000,
        ensures
            r == graph_fits(*self, 0, len as int, rot_scale as int),
    {
        for i in 0..self.rotations.len()
            invariant
                len <= 0x4000_0000,
                forall|j: int|
                    0 <= j < i ==> rotation_fits_all(
                        0,
                        len as int,
                        #[trigger] self.rotations@[j] as int,
                        rot_scale as int,
                    ),
        {
            if !fits_all(len, self.rotations[i], rot_scale) {
                assert(!rotation_fits_all(
                    0,
                    len as int,
                    self.rotations@[i as int] as int,
                    rot_scale as int,
                ));
                return false;
            }
        }
        true
    }
}

/// Whether a rotation can be counted from each of the first `len` rows.
fn fits_all(len: usize, rot: i32, rot_scale: i32) -> (r: bool)
    requires
        len <= 0x4000_0000,
    ensures
        r == rotation_fits_all(0, len as int, rot as int, rot_scale as int),
{
    assert(-0x4000_0000_0000_0000 <= rot * rot_scale <= 0x4000_0000_0000_0000) by (nonlinear_arith)
        requires
            -0x8000_0000 <= rot <= 0x7fff_ffff,
            -0x8000_0000 <= rot_scale <= 0x7fff_ffff,
    ;
    let by: i64 = rot as i64 * rot_scale as i64;
    -0x8000_0000 <= by && by <= 0x7fff_ffff && len as i64 - 1 + by <= 0x7fff_ffff
}

impl Evaluator {
    /// Whether every graph is in order.
    pub fn check(&self) -> (r: bool)
        ensures
            r == self.wf(),
    {
        for i in 0..self.lookups.len()
            invariant
                forall|j: int| 0 <= j < i ==> (#[trigger] self.lookups@[j]).wf(),
        {
            if !self.lookups[i].check() {
                assert(!self.lookups@[i as int].wf());
                return false;
            }
        }
        for i in 0..self.shuffles.len()
            invariant
                forall|j: int| 0 <= j < i ==> (#[trigger] self.shuffles@[j]).wf(),
        {
            if !self.shuffles[i].check() {
                assert(!self.shuffles@[i as int].wf());
                return false;
            }
        }
        self.custom_gates.check()
    }
}

/// Whether a coset is in reduced form and has the rows of the domain.
fn is_coset(p: &Polynomial, size: usize) -> (r: bool)
    ensures
        r == coset_wf(*p, size as int),
{
    p.values.len() == size && all_canonical(p.values.as_slice())
}

fn are_cosets(p: &Vec<Polynomial>, size: usize) -> (r: bool)
    ensures
        r == cosets_wf(p@, size as int),
{
    for i in 0..p.len()
        invariant
            forall|j: int| 0 <= j < i ==> coset_wf(#[trigger] p@[j], size as int),
    {
        if !is_coset(&p[i], size) {
            assert(!coset_wf(p@[i as int], size as int));
            return false;
        }
    }
    true
}

impl EvaluationDomain {
    /// Whether the sizes and the root of unity belong together.
    pub fn check(&self) -> (r: bool)
        ensures
            r == self.wf(),
    {
        if !(self.k <= self.extended_k && self.extended_k < 31) {
            return false;
        }
        is_canonical(&self.extended_omega) && is_primitive_root(
            &self.extended_omega,
            self.extended_k as u32,
        )
    }

    /// Whether a polynomial is in reduced form and of the circuit's degree.
    fn is_poly(&self, p: &Polynomial) -> (r: bool)
        requires
            self.wf(),
        ensures
            r == self.poly_wf(*p),
    {
        proof {
            lemma_small_power(self.k as nat);
        }
        p.values.len() == two_to(self.k) && all_canonical(p.values.as_slice())
    }

    fn are_polys(&self, p: &[Polynomial]) -> (r: bool)
        requires
            self.wf(),
        ensures
            r == self.polys_wf(p@),
    {
        for i in 0..p.len()
            invariant
                self.wf(),
                forall|j: int| 0 <= j < i ==> self.poly_wf(#[trigger] p@[j]),
        {
            if !self.is_poly(&p[i]) {
                assert(!self.poly_wf(p@[i as int]));
                return false;
            }
        }
        true
    }
}

impl ProvingKey {
    /// Whether the key's parts belong together.
    pub fn check(&self) -> (r: bool)
        ensures
            r == self.wf(),
    {
        if !self.vk.domain.check() {
            return false;
        }
        let size = self.vk.domain.extended_len();
        are_cosets(&self.fixed_cosets, size) && is_coset(&self.l0, size) && is_coset(
            &self.l_last,
            size,
        ) && is_coset(&self.l_active_row, size) && are_cosets(&self.permutation_cosets, size)
            && self.permutation_cosets.len() == self.vk.cs.permutation.len()
            && self.vk.cs.blinding_factors < i32::MAX as usize
    }
}

impl<'a> QuotientArgs<'a> {
    /// Whether an instance's polynomials are of the circuit's degree.
    fn check_polys(&self, i: usize) -> (r: bool)
        requires
            self.pk.wf(),
            i < self.instances(),
        ensures
            r == self.polys_wf(i as int),
    {
        let domain = &self.pk.vk.domain;
        let sets: &Vec<CommittedSet> = &self.permutations[i].sets;
        for j in 0..sets.len()
            invariant
                domain.wf(),
                *domain == self.pk.vk.domain,
                *sets == self.permutations@[i as int].sets,
                forall|q: int|
                    0 <= q < j ==> domain.poly_wf((#[trigger] sets@[q]).permutation_product_poly),
        {
            if !domain.is_poly(&sets[j].permutation_product_poly) {
                assert(!domain.poly_wf(sets@[j as int].permutation_product_poly));
                return false;
            }
        }
        let lookups: &Vec<LookupCommitted> = &self.lookups[i];
        for j in 0..lookups.len()
            invariant
                domain.wf(),
                *domain == self.pk.vk.domain,
                *lookups == self.lookups@[i as int],
                forall|q: int|
                    0 <= q < j ==> domain.poly_wf((#[trigger] lookups@[q]).product_poly)
                        && domain.poly_wf(lookups@[q].permuted_input_poly) && domain.poly_wf(
                        lookups@[q].permuted_table_poly,
                    ),
        {
            let l = &lookups[j];
            if !(domain.is_poly(&l.product_poly) && domain.is_poly(&l.permuted_input_poly)
                && domain.is_poly(&l.permuted_table_poly)) {
                assert(*l == lookups@[j as int]);
                return false;
            }
        }
        let shuffles: &Vec<ShuffleCommitted> = &self.shuffles[i];
        for j in 0..shuffles.len()
            invariant
                domain.wf(),
                *domain == self.pk.vk.domain,
                *shuffles == self.shuffles@[i as int],
                forall|q: int|
                    0 <= q < j ==> domain.poly_wf((#[trigger] shuffles@[q]).product_poly),
        {
            if !domain.is_poly(&shuffles[j].product_poly) {
                assert(!domain.poly_wf(shuffles@[j as int].product_poly));
                return false;
            }
        }
        domain.are_polys(self.advice_polys[i]) && domain.are_polys(self.instance_polys[i])
    }

    /// Whether the graphs look only at columns that an instance has.
    fn check_graphs(&self, ev: &Evaluator, i: usize) -> (r: bool)
        requires
            i < self.instances(),
        ensures
            r == self.graphs_fit(*ev, i as int),
    {
        let columns = Columns {
            fixed: self.pk.fixed_cosets.len(),
            advice: self.advice_polys[i].len(),
            instance: self.instance_polys[i].len(),
            challenges: self.challenges.len(),
        };
        let ghost lim = columns.limits();
        assert(lim == self.limits(i as int, 0x8000_0000));
        let lookups = self.lookups[i].len();
        let shuffles = self.shuffles[i].len();
        if lookups > ev.lookups.len() || shuffles > ev.shuffles.len() / 2 {
            return false;
        }
        for n in 0..lookups
            invariant
                i < self.instances(),
                lookups == self.lookups@[i as int]@.len(),
                lookups <= ev.lookups@.len(),
                lim == columns.limits(),
                lim == self.limits(i as int, 0x8000_0000),
                forall|j: int| 0 <= j < n ==> graph_within(#[trigger] ev.lookups@[j], lim),
        {
            if !columns.has_graph(&ev.lookups[n]) {
                assert(!graph_within(ev.lookups@[n as int], lim));
                return false;
            }
        }
        for n in 0..2 * shuffles
            invariant
                i < self.instances(),
                shuffles == self.shuffles@[i as int]@.len(),
                2 * shuffles <= ev.shuffles@.len(),
                lim == columns.limits(),
                lim == self.limits(i as int, 0x8000_0000),
                forall|j: int| 0 <= j < n ==> graph_within(#[trigger] ev.shuffles@[j], lim),
        {
            if !columns.has_graph(&ev.shuffles[n]) {
                assert(!graph_within(ev.shuffles@[n as int], lim));
                return false;
            }
        }
        if self.permutations[i].sets.len() > 0 {
            if self.pk.vk.cs.degree <= 2 {
                return false;
            }
            let permutation = &self.pk.vk.cs.permutation;
            for j in 0..permutation.len()
                invariant
                    i < self.instances(),
                    self.permutations@[i as int].sets@.len() > 0,
                    self.pk.vk.cs.degree > 2,
                    *permutation == self.pk.vk.cs.permutation,
                    lim == columns.limits(),
                    lim == self.limits(i as int, 0x8000_0000),
                    forall|q: int| 0 <= q < j ==> lim.allows_column(#[trigger] permutation@[q]),
            {
                if !columns.has_column(&permutation[j]) {
                    assert(!lim.allows_column(self.pk.vk.cs.permutation@[j as int]));
                    return false;
                }
            }
        }
        columns.has_graph(&ev.custom_gates)
    }

    /// Whether the quotient can be computed.
    pub fn check(&self, ev: &Evaluator) -> (r: bool)
        ensures
            r == self.wf(*ev),
    {
        if !(ev.check() && self.pk.check() && all_canonical(self.challenges) && is_canonical(
            &self.y,
        ) && is_canonical(&self.beta) && is_canonical(&self.gamma) && is_canonical(&self.theta)) {
            return false;
        }
        let n = self.count();
        for i in 0..n
            invariant
                n == self.instances(),
                self.pk.wf(),
                forall|j: int| 0 <= j < i ==> #[trigger] self.instance_wf(*ev, j),
        {
            if !(self.check_polys(i) && self.check_graphs(ev, i)) {
                assert(!self.instance_wf(*ev, i as int));
                return false;
            }
        }
        true
    }

    /// Whether an instance's rotations can be counted from each row of the extended domain.
    fn fits_instance(&self, ev: &Evaluator, i: usize) -> (r: bool)
        requires
            self.wf(*ev),
            i < self.instances(),
        ensures
            r == self.instance_fits(*ev, i as int),
    {
        let size = self.pk.vk.domain.extended_len();
        let scale = self.pk.vk.domain.rot_scale();
        let sets = self.permutations[i].sets.len();
        let lookups = self.lookups[i].len();
        let shuffles = self.shuffles[i].len();
        let last: i32 = -((self.pk.vk.cs.blinding_factors + 1) as i32);
        let graphs = ev.shuffles.len();
        assert(self.instance_wf(*ev, i as int));
        assert(2 * shuffles <= graphs);
        for n in 0..lookups
            invariant
                i < self.instances(),
                size <= 0x4000_0000,
                size == self.pk.vk.domain.size(),
                scale == self.pk.vk.domain.scale(),
                lookups == self.uses(i as int).lookups,
                lookups <= ev.lookups@.len(),
                forall|j: int|
                    0 <= j < n ==> graph_fits(
                        #[trigger] ev.lookups@[j],
                        0,
                        size as int,
                        scale as int,
                    ),
        {
            if !ev.lookups[n].fits_all(size, scale) {
                assert(!graph_fits(ev.lookups@[n as int], 0, size as int, scale as int));
                return false;
            }
        }
        for n in 0..2 * shuffles
            invariant
                i < self.instances(),
                size <= 0x4000_0000,
                size == self.pk.vk.domain.size(),
                scale == self.pk.vk.domain.scale(),
                shuffles == self.uses(i as int).shuffles,
                2 * shuffles <= ev.shuffles@.len(),
                forall|j: int|
                    0 <= j < n ==> graph_fits(
                        #[trigger] ev.shuffles@[j],
                        0,
                        size as int,
                        scale as int,
                    ),
        {
            if !ev.shuffles[n].fits_all(size, scale) {
                assert(!graph_fits(ev.shuffles@[n as int], 0, size as int, scale as int));
                return false;
            }
        }
        (sets == 0 || (fits_all(size, 1, scale) && fits_all(size, last, scale))) && (lookups == 0
            || (fits_all(size, 1, scale) && fits_all(size, -1, scale))) && (shuffles == 0
            || fits_all(size, 1, scale)) && ev.custom_gates.fits_all(size, scale)
    }

    /// Whether every rotation can be counted from each row of the extended domain.
    pub fn fits_rows(&self, ev: &Evaluator) -> (r: bool)
        requires
            self.wf(*ev),
        ensures
            r == self.rows_fit(*ev),
    {
        let n = self.count();
        for i in 0..n
            invariant
                n == self.instances(),
                self.wf(*ev),
                forall|j: int| 0 <= j < i ==> #[trigger] self.instance_fits(*ev, j),
        {
            if !self.fits_instance(ev, i) {
                assert(!self.instance_fits(*ev, i as int));
                return false;
            }
        }
        true
    }

    /// Whether the domain can be gone through in tiles of `tile` rows.
    pub fn fits_tiles(&self, ev: &Evaluator, tile: usize) -> (r: bool)
        requires
            self.pk.wf(),
        ensures
            r == self.tiles_fit(*ev, tile as int),
    {
        if self.count() == 0 {
            return true;
        }
        if tile == 0 || self.pk.vk.cs.degree < 2 {
            return false;
        }
        let size = self.pk.vk.domain.extended_len();
        let rows: usize = if tile < size {
            tile
        } else {
            size
        };
        let rotation = self.largest_in_use(ev) as u64;
        let scale = self.pk.vk.domain.rot_scale() as u64;
        assert(rotation * scale <= 0x2000_0000_0000_0000) by (nonlinear_arith)
            requires
                0 <= rotation <= 0x8000_0000,
                0 <= scale <= 0x4000_0000,
        ;
        rows as u64 + 2 * (rotation * scale) <= 0x7fff_ffff
    }
}

} // verus!
