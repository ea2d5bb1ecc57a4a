//! Windows of cosets: a tile evaluated on windows has the values it has on the whole domain.

use vstd::arithmetic::div_mod::*;
use vstd::prelude::*;

use crate::halo2::tiled::{gather, window_rows};
use crate::plonk::circuit::{cell, rotated, Env, Limits, Tables};
use crate::plonk::evaluator::Evaluator;
use crate::plonk::graph::{graph_within, law_results_local, GraphEvaluator};
use crate::plonk::quotient::{
    at_row, ends_terms, gates_term, left_product, link_terms, lookup_terms, permutation_term,
    right_product, row_value, set_end, set_terms, sets_in_use, shuffle_terms, with_previous,
    CosetVals, Row,
};

verus! {

/// A tile of `len` rows from row `start` of a domain of `size` rows, and the margin either
/// side that its rotations reach into.
pub ghost struct Window {
    pub size: int,
    pub start: int,
    pub len: int,
    pub halo: int,
}

impl Window {
    pub open spec fn wf(&self) -> bool {
        &&& 0 < self.size
        &&& 0 <= self.start
        &&& 0 <= self.halo
        &&& 0 <= self.len
        &&& self.start + self.len <= self.size
    }

    /// The number of rows of the window.
    pub open spec fn rows(&self) -> int {
        self.len + 2 * self.halo
    }

    /// The window of a column.
    pub open spec fn of(&self, p: Seq<int>) -> Seq<int> {
        gather(p, window_rows(self.size, self.start, self.halo, self.rows()))
    }

    /// The windows of several columns.
    pub open spec fn of_all(&self, p: Seq<Seq<int>>) -> Seq<Seq<int>> {
        Seq::new(p.len(), |j: int| self.of(p[j]))
    }

    /// The windows of tables.
    pub open spec fn of_tables(&self, t: Tables) -> Tables {
        Tables {
            fixed: self.of_all(t.fixed),
            advice: self.of_all(t.advice),
            instance: self.of_all(t.instance),
            ..t
        }
    }

    /// The windows of cosets.
    pub open spec fn of_cosets(&self, c: CosetVals) -> CosetVals {
        CosetVals {
            tables: self.of_tables(c.tables),
            l0: self.of(c.l0),
            l_last: self.of(c.l_last),
            l_active: self.of(c.l_active),
            sigmas: self.of_all(c.sigmas),
            products: self.of_all(c.products),
            lookup_products: self.of_all(c.lookup_products),
            lookup_inputs: self.of_all(c.lookup_inputs),
            lookup_tables: self.of_all(c.lookup_tables),
            shuffle_products: self.of_all(c.shuffle_products),
            ..c
        }
    }
}

/// Every column has `n` rows.
pub open spec fn all_rows(p: Seq<Seq<int>>, n: int) -> bool {
    forall|j: int| 0 <= j < p.len() ==> (#[trigger] p[j]).len() == n
}

/// Every coset has `n` rows.
pub open spec fn cosets_rows(c: CosetVals, n: int) -> bool {
    &&& all_rows(c.tables.fixed, n)
    &&& all_rows(c.tables.advice, n)
    &&& all_rows(c.tables.instance, n)
    &&& c.l0.len() == n
    &&& c.l_last.len() == n
    &&& c.l_active.len() == n
    &&& all_rows(c.sigmas, n)
    &&& all_rows(c.products, n)
    &&& all_rows(c.lookup_products, n)
    &&& all_rows(c.lookup_inputs, n)
    &&& all_rows(c.lookup_tables, n)
    &&& all_rows(c.shuffle_products, n)
}

/// Two rows offer graphs the same at rotations up to `rotation` either way.
pub open spec fn same_offer(a: Env, b: Env, rotation: int) -> bool {
    &&& forall|c: int, r: int| #![trigger (a.fixed)(c, r)]
        -rotation <= r <= rotation ==> (a.fixed)(c, r) == (b.fixed)(c, r)
    &&& forall|c: int, r: int| #![trigger (a.advice)(c, r)]
        -rotation <= r <= rotation ==> (a.advice)(c, r) == (b.advice)(c, r)
    &&& forall|c: int, r: int| #![trigger (a.instance)(c, r)]
        -rotation <= r <= rotation ==> (a.instance)(c, r) == (b.instance)(c, r)
    &&& a.challenges == b.challenges
    &&& a.beta == b.beta
    &&& a.gamma == b.gamma
    &&& a.theta == b.theta
    &&& a.y == b.y
    &&& a.previous == b.previous
}

/// Two rows hold the same, and offer graphs the same.
pub open spec fn same_row(a: Row, b: Row, rotation: int) -> bool {
    &&& same_offer(a.env, b.env, rotation)
    &&& b == Row { env: b.env, ..a }
}

/// Reading a window at a rotated row is reading the domain at the rotated row; and inside the
/// window a rotation does not wrap.
pub proof fn law_window_read(w: Window, p: Seq<int>, i: int, rot: int, rot_scale: int)
    requires
        w.wf(),
        p.len() == w.size,
        0 <= i < w.len,
        -w.halo <= rot * rot_scale <= w.halo,
    ensures
        ({
            let local = rotated(w.halo + i, rot, rot_scale, w.rows());
            let row = rotated(w.start + i, rot, rot_scale, w.size);
            &&& local == w.halo + i + rot * rot_scale
            &&& 0 <= local < w.rows()
            &&& 0 <= row < w.size
            &&& w.of(p)[local] == p[row]
        }),
{
    let at = w.halo + i + rot * rot_scale;
    lemma_small_mod(at as nat, w.rows() as nat);
    lemma_mod_bound(w.start + i + rot * rot_scale, w.size);
}

/// The same of a table.
proof fn lemma_window_cell(w: Window, t: Seq<Seq<int>>, c: int, i: int, rot: int, rot_scale: int)
    requires
        w.wf(),
        all_rows(t, w.size),
        0 <= i < w.len,
        -w.halo <= rot * rot_scale <= w.halo,
    ensures
        cell(w.of_all(t), c, rotated(w.halo + i, rot, rot_scale, w.rows())) == cell(
            t,
            c,
            rotated(w.start + i, rot, rot_scale, w.size),
        ),
{
    if 0 <= c < t.len() {
        assert(t[c].len() == w.size);
        law_window_read(w, t[c], i, rot, rot_scale);
    }
}

/// The same of several columns at once.
proof fn lemma_window_at_row(w: Window, p: Seq<Seq<int>>, i: int, rot: int, rot_scale: int)
    requires
        w.wf(),
        all_rows(p, w.size),
        0 <= i < w.len,
        p.len() > 0 ==> -w.halo <= rot * rot_scale <= w.halo,
    ensures
        at_row(w.of_all(p), rotated(w.halo + i, rot, rot_scale, w.rows())) == at_row(
            p,
            rotated(w.start + i, rot, rot_scale, w.size),
        ),
{
    let local = rotated(w.halo + i, rot, rot_scale, w.rows());
    let row = rotated(w.start + i, rot, rot_scale, w.size);
    assert forall|j: int| 0 <= j < p.len() implies at_row(w.of_all(p), local)[j] == at_row(
        p,
        row,
    )[j] by {
        assert(p[j].len() == w.size);
        law_window_read(w, p[j], i, rot, rot_scale);
    }
    assert(at_row(w.of_all(p), local) =~= at_row(p, row));
}

/// A row without rotation.
proof fn lemma_unrotated(w: Window, i: int, rot_scale: int)
    requires
        w.wf(),
        0 <= i < w.len,
    ensures
        rotated(w.halo + i, 0, rot_scale, w.rows()) == w.halo + i,
        rotated(w.start + i, 0, rot_scale, w.size) == w.start + i,
        0 * rot_scale == 0,
{
    vstd::arithmetic::mul::lemma_mul_basics(rot_scale);
    lemma_small_mod((w.halo + i) as nat, w.rows() as nat);
    lemma_small_mod((w.start + i) as nat, w.size as nat);
}

/// The quotient takes from a row of the windows what it takes from the row of the domain, as
/// long as the margin covers the rotations in use.
pub proof fn law_window_row(
    w: Window,
    c: CosetVals,
    i: int,
    rot_scale: int,
    rotation: int,
    x: int,
)
    requires
        w.wf(),
        cosets_rows(c, w.size),
        0 <= i < w.len,
        0 <= rot_scale,
        0 <= rotation,
        rotation * rot_scale <= w.halo,
        c.products.len() > 0 ==> 1 <= rotation && -rotation <= c.last_rotation <= rotation,
        c.lookup_products.len() > 0 ==> 1 <= rotation,
        c.lookup_inputs.len() == c.lookup_products.len(),
        c.shuffle_products.len() > 0 ==> 1 <= rotation,
    ensures
        same_row(
            w.of_cosets(c).row(w.halo + i, rot_scale, w.rows(), x),
            c.row(w.start + i, rot_scale, w.size, x),
            rotation,
        ),
{
    let wc = w.of_cosets(c);
    let a = wc.row(w.halo + i, rot_scale, w.rows(), x);
    let b = c.row(w.start + i, rot_scale, w.size, x);
    lemma_unrotated(w, i, rot_scale);
    assert forall|r: int| -rotation <= r <= rotation implies -w.halo <= #[trigger] (r * rot_scale)
        <= w.halo by {
        assert(-(rotation * rot_scale) <= r * rot_scale <= rotation * rot_scale)
            by (nonlinear_arith)
            requires
                -rotation <= r <= rotation,
                0 <= rot_scale,
        ;
    }
    assert(rotation >= 1 ==> -w.halo <= 1 * rot_scale <= w.halo);
    assert(rotation >= 1 ==> -w.halo <= (-1) * rot_scale <= w.halo);
    assert forall|col: int, r: int| #![trigger (a.env.fixed)(col, r)]
        -rotation <= r <= rotation implies (a.env.fixed)(col, r) == (b.env.fixed)(col, r) by {
        assert(-w.halo <= r * rot_scale <= w.halo);
        lemma_window_cell(w, c.tables.fixed, col, i, r, rot_scale);
    }
    assert forall|col: int, r: int| #![trigger (a.env.advice)(col, r)]
        -rotation <= r <= rotation implies (a.env.advice)(col, r) == (b.env.advice)(col, r) by {
        assert(-w.halo <= r * rot_scale <= w.halo);
        lemma_window_cell(w, c.tables.advice, col, i, r, rot_scale);
    }
    assert forall|col: int, r: int| #![trigger (a.env.instance)(col, r)]
        -rotation <= r <= rotation implies (a.env.instance)(col, r) == (b.env.instance)(col, r) by {
        assert(-w.halo <= r * rot_scale <= w.halo);
        lemma_window_cell(w, c.tables.instance, col, i, r, rot_scale);
    }
    law_window_read(w, c.l0, i, 0, rot_scale);
    law_window_read(w, c.l_last, i, 0, rot_scale);
    law_window_read(w, c.l_active, i, 0, rot_scale);
    lemma_window_at_row(w, c.sigmas, i, 0, rot_scale);
    lemma_window_at_row(w, c.products, i, 0, rot_scale);
    lemma_window_at_row(w, c.products, i, 1, rot_scale);
    lemma_window_at_row(w, c.products, i, c.last_rotation, rot_scale);
    lemma_window_at_row(w, c.lookup_products, i, 0, rot_scale);
    lemma_window_at_row(w, c.lookup_products, i, 1, rot_scale);
    lemma_window_at_row(w, c.lookup_inputs, i, 0, rot_scale);
    lemma_window_at_row(w, c.lookup_inputs, i, -1, rot_scale);
    lemma_window_at_row(w, c.lookup_tables, i, 0, rot_scale);
    lemma_window_at_row(w, c.shuffle_products, i, 0, rot_scale);
    lemma_window_at_row(w, c.shuffle_products, i, 1, rot_scale);
    assert forall|j: int| 0 <= j < c.columns.len() implies #[trigger] a.columns[j]
        == b.columns[j] by {
        let col = c.columns[j].index as int;
        lemma_window_cell(w, c.tables.fixed, col, i, 0, rot_scale);
        lemma_window_cell(w, c.tables.advice, col, i, 0, rot_scale);
        lemma_window_cell(w, c.tables.instance, col, i, 0, rot_scale);
    }
    assert(a.columns =~= b.columns);
}

/// A graph has the same result on rows that offer the same at its rotations.
proof fn lemma_result_same(g: GraphEvaluator, a: Env, b: Env, v: int, lim: Limits)
    requires
        g.wf(),
        graph_within(g, lim),
        same_offer(a, b, lim.rotation),
    ensures
        g.result(with_previous(a, v)) == g.result(with_previous(b, v)),
{
    let x = with_previous(a, v);
    let y = with_previous(b, v);
    assert forall|i: int, c: int| #![trigger (x.fixed)(c, g.rotations@[i] as int)]
        0 <= i < g.rotations@.len() implies (x.fixed)(c, g.rotations@[i] as int) == (y.fixed)(
        c,
        g.rotations@[i] as int,
    ) by {
        assert(lim.allows_rotation(g.rotations@[i] as int));
    }
    assert forall|i: int, c: int| #![trigger (x.advice)(c, g.rotations@[i] as int)]
        0 <= i < g.rotations@.len() implies (x.advice)(c, g.rotations@[i] as int) == (y.advice)(
        c,
        g.rotations@[i] as int,
    ) by {
        assert(lim.allows_rotation(g.rotations@[i] as int));
    }
    assert forall|i: int, c: int| #![trigger (x.instance)(c, g.rotations@[i] as int)]
        0 <= i < g.rotations@.len() implies (x.instance)(c, g.rotations@[i] as int) == (y.instance)(
        c,
        g.rotations@[i] as int,
    ) by {
        assert(lim.allows_rotation(g.rotations@[i] as int));
    }
    law_results_local(g, x, y, g.calculations@.len());
}

/// Rows that hold the same have the same value.
pub proof fn law_row_value_local(
    ev: Evaluator,
    a: Row,
    b: Row,
    chunk_len: int,
    v: int,
    lim: Limits,
)
    requires
        ev.wf(),
        same_row(a, b, lim.rotation),
        graph_within(ev.custom_gates, lim),
        a.lookup_z.len() <= ev.lookups@.len(),
        2 * a.shuffle_z.len() <= ev.shuffles@.len(),
        forall|n: int|
            0 <= n < a.lookup_z.len() ==> graph_within(#[trigger] ev.lookups@[n], lim),
        forall|n: int|
            0 <= n < 2 * a.shuffle_z.len() ==> graph_within(#[trigger] ev.shuffles@[n], lim),
    ensures
        row_value(ev, a, chunk_len, v) == row_value(ev, b, chunk_len, v),
{
    lemma_result_same(ev.custom_gates, a.env, b.env, v, lim);
    let v1 = gates_term(ev, a, v);
    lemma_permutation_same(a, b, chunk_len, v1);
    let v2 = permutation_term(a, chunk_len, v1);
    lemma_lookups_same(ev, a, b, v2, a.lookup_z.len(), lim);
    let v3 = lookup_terms(ev, a, v2, a.lookup_z.len());
    lemma_shuffles_same(ev, a, b, v3, a.shuffle_z.len(), lim);
}

proof fn lemma_lookups_same(ev: Evaluator, a: Row, b: Row, v: int, n: nat, lim: Limits)
    requires
        ev.wf(),
        same_row(a, b, lim.rotation),
        n <= ev.lookups@.len(),
        forall|i: int| 0 <= i < n ==> graph_within(#[trigger] ev.lookups@[i], lim),
    ensures
        lookup_terms(ev, a, v, n) == lookup_terms(ev, b, v, n),
    decreases n,
{
    if n > 0 {
        lemma_lookups_same(ev, a, b, v, (n - 1) as nat, lim);
        lemma_result_same(ev.lookups@[n - 1], a.env, b.env, 0, lim);
    }
}

proof fn lemma_shuffles_same(ev: Evaluator, a: Row, b: Row, v: int, n: nat, lim: Limits)
    requires
        ev.wf(),
        same_row(a, b, lim.rotation),
        2 * n <= ev.shuffles@.len(),
        forall|i: int| 0 <= i < 2 * n ==> graph_within(#[trigger] ev.shuffles@[i], lim),
    ensures
        shuffle_terms(ev, a, v, n) == shuffle_terms(ev, b, v, n),
    decreases n,
{
    if n > 0 {
        lemma_shuffles_same(ev, a, b, v, (n - 1) as nat, lim);
        lemma_result_same(ev.shuffles@[2 * (n - 1)], a.env, b.env, 0, lim);
        lemma_result_same(ev.shuffles@[2 * (n - 1) + 1], a.env, b.env, 0, lim);
    }
}

/// The permutation argument does not look at what rows offer graphs, but for the values that
/// every row shares.
proof fn lemma_permutation_same(a: Row, b: Row, chunk_len: int, v: int)
    requires
        b == (Row { env: b.env, ..a }),
        a.env.beta == b.env.beta,
        a.env.gamma == b.env.gamma,
        a.env.y == b.env.y,
    ensures
        permutation_term(a, chunk_len, v) == permutation_term(b, chunk_len, v),
{
    if a.z.len() > 0 {
        let v1 = ends_terms(a, a.z[0], a.z.last(), v);
        lemma_links_same(a, b, v1, a.z.len());
        let v2 = link_terms(a, v1, a.z.len());
        lemma_sets_same(a, b, chunk_len, v2, sets_in_use(a, chunk_len));
    }
}

proof fn lemma_links_same(a: Row, b: Row, v: int, n: nat)
    requires
        b == (Row { env: b.env, ..a }),
        a.env.y == b.env.y,
    ensures
        link_terms(a, v, n) == link_terms(b, v, n),
    decreases n,
{
    if n > 1 {
        lemma_links_same(a, b, v, (n - 1) as nat);
    }
}

proof fn lemma_sets_same(a: Row, b: Row, chunk_len: int, v: int, n: nat)
    requires
        b == (Row { env: b.env, ..a }),
        a.env.beta == b.env.beta,
        a.env.gamma == b.env.gamma,
        a.env.y == b.env.y,
    ensures
        set_terms(a, chunk_len, v, n) == set_terms(b, chunk_len, v, n),
    decreases n,
{
    if n > 0 {
        let s = n - 1;
        lemma_sets_same(a, b, chunk_len, v, s as nat);
        lemma_sides_same(a, b, a.z_next[s], s * chunk_len, set_end(a, chunk_len, s));
        lemma_sides_same(a, b, a.z[s], s * chunk_len, set_end(a, chunk_len, s));
    }
}

proof fn lemma_sides_same(a: Row, b: Row, start: int, from: int, to: int)
    requires
        b == (Row { env: b.env, ..a }),
        a.env.beta == b.env.beta,
        a.env.gamma == b.env.gamma,
    ensures
        left_product(a, start, from, to) == left_product(b, start, from, to),
        right_product(a, start, from, to) == right_product(b, start, from, to),
    decreases to - from,
{
    if from < to {
        lemma_sides_same(a, b, start, from, to - 1);
    }
}

} // verus!
