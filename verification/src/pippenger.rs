//! Pippenger's bucket method, in core and streaming.
//!
//! Each scalar is split into windows of `c` bits. For a window, a base lands in the bucket
//! of its scalar's digit; the window's sum is `Sum_d d * bucket[d]`, by a running sum; the
//! windows recombine with `c` doublings between them. A base's digits for all windows are
//! known from its scalar alone, so with every window's buckets resident a base is routed
//! once, as it passes, and then forgotten: that is what [`Accumulator`] does.

use rayon::iter::{IndexedParallelIterator, ParallelIterator};
use rayon::slice::ParallelSliceMut;
use vstd::arithmetic::div_mod::*;
use vstd::arithmetic::mul::*;
use vstd::arithmetic::power::*;
use vstd::arithmetic::power2::*;
use vstd::prelude::*;

use crate::powers::{lemma_pow2_split, two_to};
use crate::sums::{lemma_sum_eq, lemma_sum_zero, sum};

verus! {

/// A cyclic group written additively, with the operations Pippenger's method uses. A point
/// is described by the multiple of a fixed generator that it is.
pub trait Group: Copy + Send + Sync {
    /// A base point, in the form in which bases are stored.
    type Base: Copy + Send + Sync;

    /// The point is in the form in which the group's operations leave their results.
    spec fn wf(self) -> bool;

    /// The base is in the form in which bases are stored.
    spec fn base_wf(b: Self::Base) -> bool;

    /// The point is `k` times the generator.
    spec fn is(self, k: int) -> bool;

    /// The base is `k` times the generator.
    spec fn base_is(b: Self::Base, k: int) -> bool;

    fn identity() -> (r: Self)
        ensures
            r.wf(),
            r.is(0),
    ;

    fn double(&self) -> (r: Self)
        requires
            self.wf(),
        ensures
            r.wf(),
            forall|k: int| #[trigger] self.is(k) ==> r.is(2 * k),
    ;

    fn plus(&self, other: &Self) -> (r: Self)
        requires
            self.wf(),
            other.wf(),
        ensures
            r.wf(),
            forall|j: int, k: int| #[trigger] self.is(j) && #[trigger] other.is(k) ==> r.is(j + k),
    ;

    fn plus_base(&self, base: &Self::Base) -> (r: Self)
        requires
            self.wf(),
            Self::base_wf(*base),
        ensures
            r.wf(),
            forall|j: int, k: int|
                #[trigger] self.is(j) && #[trigger] Self::base_is(*base, k) ==> r.is(j + k),
    ;
}

/// A scalar whose digits can be read.
pub trait Digits: Send + Sync {
    /// The integer.
    spec fn value(&self) -> int;

    /// The `c`-bit digit at window `w`.
    fn digit(&self, w: usize, c: usize) -> (r: usize)
        requires
            c <= usize::BITS,
            (w + 1) * c <= usize::MAX + 1,
        ensures
            r == digit_of(self.value(), w as nat, c as nat),
    ;
}

/// The `c`-bit digit of `v` at window `w`.
pub open spec fn digit_of(v: int, w: nat, c: nat) -> int {
    (v / pow2(w * c) as int) % pow2(c) as int
}

/// Digits of `c` bits are below `2^c`, those past the end of a number are zero, and together
/// they spell the number.
pub proof fn law_digits_spell(v: int, num_windows: nat, c: nat)
    requires
        0 <= v < pow2(num_windows * c),
    ensures
        forall|w: nat| 0 <= #[trigger] digit_of(v, w, c) < pow2(c),
        forall|w: nat| num_windows <= w ==> #[trigger] digit_of(v, w, c) == 0,
        sum(|w: int| digit_of(v, w as nat, c) * pow2((w * c) as nat), num_windows) == v,
{
    assert forall|w: nat| 0 <= #[trigger] digit_of(v, w, c) < pow2(c) by {
        lemma_pow2_pos(c);
        lemma_mod_bound(v / pow2(w * c) as int, pow2(c) as int);
    }
    assert forall|w: nat| num_windows <= w implies #[trigger] digit_of(v, w, c) == 0 by {
        lemma_mul_inequality(num_windows as int, w as int, c as int);
        lemma_pow2_split(num_windows * c, w * c);
        lemma_basic_div(v, pow2(w * c) as int);
        lemma_pow2_pos(c);
        lemma_small_mod(0, pow2(c));
    }
    lemma_low_digits(v, num_windows, c);
    lemma_small_mod(v as nat, pow2(num_windows * c));
}

/// The lowest digits of a number spell its lowest bits.
proof fn lemma_low_digits(v: int, n: nat, c: nat)
    requires
        0 <= v,
    ensures
        sum(|w: int| digit_of(v, w as nat, c) * pow2((w * c) as nat), n) == v % pow2(n * c) as int,
    decreases n,
{
    lemma2_to64();
    if n > 0 {
        let m = (n - 1) as nat;
        lemma_low_digits(v, m, c);
        lemma_pow2_pos(m * c);
        lemma_pow2_pos(c);
        lemma_mul_is_distributive_add_other_way(c as int, m as int, 1);
        lemma_pow2_adds(m * c, c);
        lemma_mod_breakdown(v, pow2(m * c) as int, pow2(c) as int);
        lemma_mul_is_commutative(digit_of(v, m, c), pow2(m * c) as int);
        let f = |w: int| digit_of(v, w as nat, c) * pow2((w * c) as nat);
        assert(f(m as int) == digit_of(v, m, c) * pow2(m * c));
        assert(n * c == m * c + c);
        assert(sum(f, n) == sum(f, m) + f(m as int));
    } else {
        lemma_mul_basics(c as int);
        assert(v % 1 == 0);
    }
}

/// The lowest `i + 1` bits of a digit are its lowest `i` bits and bit `start + i` of the
/// scalar.
pub proof fn lemma_digit_step(v: int, start: nat, i: nat)
    requires
        0 <= v,
    ensures
        (v / pow2(start) as int) % pow2(i + 1) as int == (v / pow2(start) as int) % pow2(i) as int
            + pow2(i) * ((v / pow2(start + i) as int) % 2),
        0 <= (v / pow2(start) as int) % pow2(i) as int,
        (v / pow2(start) as int) % pow2(i) as int <= pow2(i) - 1,
{
    let x = v / pow2(start) as int;
    lemma_pow2_pos(start);
    lemma_pow2_pos(i);
    lemma_pow2_unfold(i + 1);
    lemma_pow2_adds(start, i);
    lemma_div_pos_is_pos(v, pow2(start) as int);
    lemma_div_denominator(v, pow2(start) as int, pow2(i) as int);
    lemma_mod_breakdown(x, pow2(i) as int, 2);
    lemma_mul_is_commutative(pow2(i) as int, 2);
    lemma_mod_bound(x, pow2(i) as int);
}

/// The multiple of the generator that a base is.
pub open spec fn base_log<G: Group>(b: G::Base) -> int {
    choose|k: int| G::base_is(b, k)
}

/// The base is a multiple of the generator.
pub open spec fn is_multiple<G: Group>(b: G::Base) -> bool {
    exists|k: int| G::base_is(b, k)
}

/// Every base is a multiple of the generator.
pub open spec fn bases_ok<G: Group>(bases: Seq<G::Base>) -> bool {
    forall|i: int| 0 <= i < bases.len() ==> is_multiple::<G>(#[trigger] bases[i])
}

/// Every base is in the form in which bases are stored.
pub open spec fn bases_wf<G: Group>(bases: Seq<G::Base>) -> bool {
    forall|i: int| 0 <= i < bases.len() ==> G::base_wf(#[trigger] bases[i])
}

/// Every point is in the form in which the group's operations leave their results.
pub open spec fn points_wf<G: Group>(points: Seq<G>) -> bool {
    forall|i: int| 0 <= i < points.len() ==> (#[trigger] points[i]).wf()
}

/// The multiples that bases are.
pub open spec fn base_logs<G: Group>(bases: Seq<G::Base>) -> Seq<int> {
    Seq::new(bases.len(), |i: int| base_log::<G>(bases[i]))
}

/// The integers of scalars.
pub open spec fn values<S: Digits>(scalars: Seq<S>) -> Seq<int> {
    Seq::new(scalars.len(), |i: int| scalars[i].value())
}

/// Every scalar has at most `nbits` bits.
pub open spec fn scalars_fit<S: Digits>(scalars: Seq<S>, nbits: nat) -> bool {
    forall|i: int| 0 <= i < scalars.len() ==> 0 <= (#[trigger] scalars[i]).value() < pow2(nbits)
}

/// `Sum_i v[i] * k[i]`: the multi-scalar product, as a multiple of the generator.
pub open spec fn inner_product(v: Seq<int>, k: Seq<int>) -> int {
    sum(|i: int| v[i] * k[i], v.len())
}

/// The points are the given multiples.
pub open spec fn points_are<G: Group>(points: Seq<G>, logs: Seq<int>) -> bool {
    &&& points.len() == logs.len()
    &&& forall|i: int| 0 <= i < points.len() ==> (#[trigger] points[i]).is(logs[i])
}

/// Bucket contents after the first `n` bases, base `i` with digit `d[i]` going to bucket
/// `d[i] - 1`.
pub open spec fn filled(logs: Seq<int>, k: Seq<int>, d: Seq<int>, n: nat) -> Seq<int>
    decreases n,
{
    if n == 0 {
        logs
    } else {
        let prev = filled(logs, k, d, (n - 1) as nat);
        if d[n - 1] == 0 {
            prev
        } else {
            prev.update(d[n - 1] - 1, prev[d[n - 1] - 1] + k[n - 1])
        }
    }
}

/// The digits of scalars at a window.
pub open spec fn digits_at<S: Digits>(scalars: Seq<S>, w: nat, c: nat) -> Seq<int> {
    Seq::new(scalars.len(), |i: int| digit_of(scalars[i].value(), w, c))
}

/// `Sum_d (d + 1) * logs[d]` over the buckets from `d0` on, weighted from `d0`.
pub open spec fn weighted_from(logs: Seq<int>, d0: int) -> int
    decreases logs.len() - d0,
{
    if d0 >= logs.len() || d0 < 0 {
        0
    } else {
        weighted_from(logs, d0 + 1) + total_from(logs, d0)
    }
}

/// `Sum_d logs[d]` over the buckets from `d0` on.
pub open spec fn total_from(logs: Seq<int>, d0: int) -> int
    decreases logs.len() - d0,
{
    if d0 >= logs.len() || d0 < 0 {
        0
    } else {
        total_from(logs, d0 + 1) + logs[d0]
    }
}

/// The sum of a window's buckets, bucket `d` weighted by `d + 1`.
pub open spec fn window_value(logs: Seq<int>) -> int {
    sum(|d: int| (d + 1) * logs[d], logs.len())
}

/// The running sum from the top computes the weighted sum.
proof fn lemma_weighted(logs: Seq<int>, d0: int)
    requires
        0 <= d0 <= logs.len(),
    ensures
        weighted_from(logs, d0) + sum(|d: int| (d + 1) * logs[d], d0 as nat) + d0 * total_from(
            logs,
            d0,
        ) == window_value(logs),
    decreases logs.len() - d0,
{
    let f = |d: int| (d + 1) * logs[d];
    if d0 < logs.len() {
        lemma_weighted(logs, d0 + 1);
        assert(sum(f, (d0 + 1) as nat) == sum(f, d0 as nat) + f(d0));
        let t = total_from(logs, d0 + 1);
        let x = logs[d0];
        assert((d0 + 1) * t + (d0 + 1) * x == d0 * (t + x) + (t + x)) by (nonlinear_arith);
    } else {
        lemma_mul_basics(d0);
    }
}

/// Raising one bucket raises the weighted sum by its weight.
proof fn lemma_window_update(logs: Seq<int>, d: int, x: int, n: nat)
    requires
        0 <= d < logs.len(),
        n <= logs.len(),
    ensures
        sum(|e: int| (e + 1) * logs.update(d, logs[d] + x)[e], n) == sum(
            |e: int| (e + 1) * logs[e],
            n,
        ) + (if d < n {
            (d + 1) * x
        } else {
            0
        }),
    decreases n,
{
    if n > 0 {
        lemma_window_update(logs, d, x, (n - 1) as nat);
        lemma_mul_is_distributive_add(d + 1, logs[d], x);
    }
}

/// Routing bases into a window's buckets raises the window's sum by `Sum_i d[i] * k[i]`.
proof fn lemma_filled(logs: Seq<int>, k: Seq<int>, d: Seq<int>, n: nat)
    requires
        n <= k.len(),
        n <= d.len(),
        forall|i: int| 0 <= i < n ==> 0 <= #[trigger] d[i] <= logs.len(),
    ensures
        filled(logs, k, d, n).len() == logs.len(),
        window_value(filled(logs, k, d, n)) == window_value(logs) + sum(|i: int| d[i] * k[i], n),
    decreases n,
{
    if n > 0 {
        let m = (n - 1) as nat;
        lemma_filled(logs, k, d, m);
        let prev = filled(logs, k, d, m);
        assert(0 <= d[n - 1] <= logs.len());
        if d[n - 1] == 0 {
            lemma_mul_basics(k[n - 1]);
        } else {
            lemma_window_update(prev, d[n - 1] - 1, k[n - 1], prev.len());
        }
    }
}

/// The windows recombined from window `w` up, `c` doublings between them.
pub open spec fn horner(s: spec_fn(int) -> int, w: int, num_windows: int, c: nat) -> int
    decreases num_windows - w,
{
    if w >= num_windows {
        0
    } else {
        pow2(c) * horner(s, w + 1, num_windows, c) + s(w)
    }
}

proof fn lemma_horner_eq(
    s: spec_fn(int) -> int,
    t: spec_fn(int) -> int,
    w: int,
    num_windows: int,
    c: nat,
)
    requires
        0 <= w,
        forall|v: int| 0 <= v < num_windows ==> #[trigger] s(v) == t(v),
    ensures
        horner(s, w, num_windows, c) == horner(t, w, num_windows, c),
    decreases num_windows - w,
{
    if w < num_windows {
        lemma_horner_eq(s, t, w + 1, num_windows, c);
        assert(s(w) == t(w));
    }
}

/// Recombining is linear.
proof fn lemma_horner_linear(
    s: spec_fn(int) -> int,
    t: spec_fn(int) -> int,
    k: int,
    w: int,
    num_windows: int,
    c: nat,
)
    ensures
        horner(|v: int| s(v) + t(v) * k, w, num_windows, c) == horner(s, w, num_windows, c)
            + horner(t, w, num_windows, c) * k,
    decreases num_windows - w,
{
    if w < num_windows {
        lemma_horner_linear(s, t, k, w + 1, num_windows, c);
        let p = pow2(c) as int;
        let a = horner(s, w + 1, num_windows, c);
        let b = horner(t, w + 1, num_windows, c);
        assert(p * (a + b * k) + (s(w) + t(w) * k) == (p * a + s(w)) + (p * b + t(w)) * k)
            by (nonlinear_arith);
    } else {
        lemma_mul_basics(k);
    }
}

/// The digits of a number recombine to the number.
proof fn lemma_horner_digits(v: int, w: nat, num_windows: nat, c: nat)
    requires
        0 <= v < pow2(num_windows * c),
        w <= num_windows,
    ensures
        horner(|x: int| digit_of(v, x as nat, c), w as int, num_windows as int, c) == v / pow2(
            w * c,
        ) as int,
    decreases num_windows - w,
{
    let p = pow2(w * c) as int;
    lemma_pow2_pos(w * c);
    lemma_pow2_pos(c);
    if w < num_windows {
        lemma_horner_digits(v, w + 1, num_windows, c);
        lemma_mul_is_distributive_add_other_way(c as int, w as int, 1);
        lemma_pow2_adds(w * c, c);
        lemma_div_denominator(v, p, pow2(c) as int);
        lemma_fundamental_div_mod(v / p, pow2(c) as int);
    } else {
        lemma_basic_div(v, p);
    }
}

/// What a block of bases adds to the recombined windows.
proof fn lemma_block_total(
    s: spec_fn(int) -> int,
    v: Seq<int>,
    k: Seq<int>,
    n: nat,
    num_windows: nat,
    c: nat,
)
    requires
        n <= v.len(),
        n <= k.len(),
        forall|i: int| 0 <= i < n ==> 0 <= #[trigger] v[i] < pow2(num_windows * c),
    ensures
        horner(
            |w: int| s(w) + sum(|i: int| digit_of(v[i], w as nat, c) * k[i], n),
            0,
            num_windows as int,
            c,
        ) == horner(s, 0, num_windows as int, c) + sum(|i: int| v[i] * k[i], n),
    decreases n,
{
    let full = |w: int| s(w) + sum(|i: int| digit_of(v[i], w as nat, c) * k[i], n);
    if n == 0 {
        lemma_horner_eq(full, s, 0, num_windows as int, c);
    } else {
        let m = (n - 1) as nat;
        lemma_block_total(s, v, k, m, num_windows, c);
        let part = |w: int| s(w) + sum(|i: int| digit_of(v[i], w as nat, c) * k[i], m);
        let digs = |w: int| digit_of(v[n - 1], w as nat, c);
        lemma_horner_linear(part, digs, k[n - 1], 0, num_windows as int, c);
        assert(0 <= v[n - 1] < pow2(num_windows * c));
        lemma_horner_digits(v[n - 1], 0, num_windows, c);
        lemma_horner_eq(
            full,
            |w: int| part(w) + digs(w) * k[n - 1],
            0,
            num_windows as int,
            c,
        );
        assert(pow2(0 * c) == 1) by {
            lemma_mul_basics(c as int);
            lemma2_to64();
        }
    }
}

/// Window width for `n` bases: the `ceil(ln n)` bits of the classic choice, at least 4 and
/// at most 16, and 2 for fewer than four bases. The bounds are the integer parts of the
/// powers of `e`.
pub open spec fn window_width(n: int) -> int {
    if n < 4 {
        2
    } else if n <= 54 {
        4
    } else if n <= 148 {
        5
    } else if n <= 403 {
        6
    } else if n <= 1096 {
        7
    } else if n <= 2980 {
        8
    } else if n <= 8103 {
        9
    } else if n <= 22026 {
        10
    } else if n <= 59874 {
        11
    } else if n <= 162754 {
        12
    } else if n <= 442413 {
        13
    } else if n <= 1202604 {
        14
    } else if n <= 3269017 {
        15
    } else {
        16
    }
}

/// The window width is the natural logarithm of `n`, rounded up, kept between 4 and 16; `e` lies
/// between the fractions `2718281828 / 10^9` and `2718281829 / 10^9`. Fewer than four bases take
/// two bits.
pub proof fn law_window_width(n: int)
    ensures
        ({
            let w = window_width(n);
            &&& n < 4 ==> w == 2
            &&& n >= 4 ==> 4 <= w <= 16
            &&& n >= 4 && w > 4 ==> pow(2718281829, (w - 1) as nat) < n * pow(
                1000000000,
                (w - 1) as nat,
            )
            &&& n >= 4 && w < 16 ==> n * pow(1000000000, w as nat) <= pow(2718281828, w as nat)
        }),
{
    let unit = 1000000000int;
    let w = window_width(n) as nat;
    if n >= 4 {
        lemma_width_bounds(w);
        lemma_pow_positive(unit, w);
        lemma_pow_positive(unit, (w - 1) as nat);
        if w < 16 {
            lemma_mul_inequality(n, width_bound(w), pow(unit, w));
        }
        if w > 4 {
            lemma_mul_inequality(width_bound((w - 1) as nat) + 1, n, pow(unit, (w - 1) as nat));
        }
    }
}

/// The largest number of bases that a width is for: the integer part of a power of `e`.
spec fn width_bound(w: nat) -> int {
    if w == 4 {
        54
    } else if w == 5 {
        148
    } else if w == 6 {
        403
    } else if w == 7 {
        1096
    } else if w == 8 {
        2980
    } else if w == 9 {
        8103
    } else if w == 10 {
        22026
    } else if w == 11 {
        59874
    } else if w == 12 {
        162754
    } else if w == 13 {
        442413
    } else if w == 14 {
        1202604
    } else if w == 15 {
        3269017
    } else {
        0
    }
}

/// The bounds are those of the powers of `e`.
proof fn lemma_width_bounds(w: nat)
    requires
        4 <= w <= 16,
    ensures
        w < 16 ==> width_bound(w) * pow(1000000000, w) <= pow(2718281828, w),
        w > 4 ==> pow(2718281829, (w - 1) as nat) < (width_bound((w - 1) as nat) + 1) * pow(
            1000000000,
            (w - 1) as nat,
        ),
{
    lemma_width_bound(if w < 16 {
        w
    } else {
        15
    });
    lemma_width_bound(if w > 4 {
        (w - 1) as nat
    } else {
        4
    });
}

proof fn lemma_width_bound(w: nat)
    requires
        4 <= w <= 15,
    ensures
        width_bound(w) * pow(1000000000, w) <= pow(2718281828, w),
        pow(2718281829, w) < (width_bound(w) + 1) * pow(1000000000, w),
{
    if w == 4 {
        reveal_with_fuel(pow, 5);
        assert(54 * pow(1000000000, 4) <= pow(2718281828, 4));
        assert(pow(2718281829, 4) < 55 * pow(1000000000, 4));
    } else if w == 5 {
        reveal_with_fuel(pow, 6);
        assert(148 * pow(1000000000, 5) <= pow(2718281828, 5));
        assert(pow(2718281829, 5) < 149 * pow(1000000000, 5));
    } else if w == 6 {
        reveal_with_fuel(pow, 7);
        assert(403 * pow(1000000000, 6) <= pow(2718281828, 6));
        assert(pow(2718281829, 6) < 404 * pow(1000000000, 6));
    } else if w == 7 {
        reveal_with_fuel(pow, 8);
        assert(1096 * pow(1000000000, 7) <= pow(2718281828, 7));
        assert(pow(2718281829, 7) < 1097 * pow(1000000000, 7));
    } else if w == 8 {
        reveal_with_fuel(pow, 9);
        assert(2980 * pow(1000000000, 8) <= pow(2718281828, 8));
        assert(pow(2718281829, 8) < 2981 * pow(1000000000, 8));
    } else if w == 9 {
        reveal_with_fuel(pow, 10);
        assert(8103 * pow(1000000000, 9) <= pow(2718281828, 9));
        assert(pow(2718281829, 9) < 8104 * pow(1000000000, 9));
    } else if w == 10 {
        reveal_with_fuel(pow, 11);
        assert(22026 * pow(1000000000, 10) <= pow(2718281828, 10));
        assert(pow(2718281829, 10) < 22027 * pow(1000000000, 10));
    } else if w == 11 {
        reveal_with_fuel(pow, 12);
        assert(59874 * pow(1000000000, 11) <= pow(2718281828, 11));
        assert(pow(2718281829, 11) < 59875 * pow(1000000000, 11));
    } else if w == 12 {
        reveal_with_fuel(pow, 13);
        assert(162754 * pow(1000000000, 12) <= pow(2718281828, 12));
        assert(pow(2718281829, 12) < 162755 * pow(1000000000, 12));
    } else if w == 13 {
        reveal_with_fuel(pow, 14);
        assert(442413 * pow(1000000000, 13) <= pow(2718281828, 13));
        assert(pow(2718281829, 13) < 442414 * pow(1000000000, 13));
    } else if w == 14 {
        reveal_with_fuel(pow, 15);
        assert(1202604 * pow(1000000000, 14) <= pow(2718281828, 14));
        assert(pow(2718281829, 14) < 1202605 * pow(1000000000, 14));
    } else if w == 15 {
        reveal_with_fuel(pow, 16);
        assert(3269017 * pow(1000000000, 15) <= pow(2718281828, 15));
        assert(pow(2718281829, 15) < 3269018 * pow(1000000000, 15));
    }
}

/// The largest number of bases for each window width from 4 to 15.
const WIDTH_BOUNDS: [usize; 12] = [
    54,
    148,
    403,
    1096,
    2980,
    8103,
    22026,
    59874,
    162754,
    442413,
    1202604,
    3269017,
];

/// Window width for `n` bases.
pub fn window_bits(n: usize) -> (r: usize)
    ensures
        r == window_width(n as int),
{
    if n < 4 {
        return 2;
    }
    let mut c: usize = 4;
    while c < 16 && n > WIDTH_BOUNDS[c - 4]
        invariant
            4 <= n,
            4 <= c <= 16,
            c > 4 ==> n > WIDTH_BOUNDS[c - 5],
        decreases 16 - c,
    {
        c = c + 1;
    }
    c
}

/// Threads for routing bases into buckets on a machine of `cores` cores: the routing is bound
/// by memory bandwidth, so past a handful more threads gain nothing.
pub fn fill_threads(cores: usize) -> (r: usize)
    ensures
        r == (if cores < 1 {
            1
        } else if cores > 8 {
            8
        } else {
            cores as int
        }),
{
    if cores < 1 {
        1
    } else if cores > 8 {
        8
    } else {
        cores
    }
}

/// Route bases into one window's buckets.
pub(crate) fn fill_window<G: Group, S: Digits>(
    buckets: &mut [G],
    bases: &[G::Base],
    scalars: &[S],
    w: usize,
    c: usize,
)
    requires
        0 < c <= 16,
        w <= 256,
        old(buckets)@.len() == pow2(c as nat) - 1,
        bases@.len() == scalars@.len(),
        points_wf(old(buckets)@),
        bases_wf::<G>(bases@),
    ensures
        final(buckets)@.len() == old(buckets)@.len(),
        points_wf(final(buckets)@),
        bases_ok::<G>(bases@) ==> forall|logs: Seq<int>| #[trigger]
            points_are(old(buckets)@, logs) ==> points_are(
                final(buckets)@,
                filled(
                    logs,
                    base_logs::<G>(bases@),
                    digits_at(scalars@, w as nat, c as nat),
                    bases@.len(),
                ),
            ),
{
    let ghost k = base_logs::<G>(bases@);
    let ghost d = digits_at(scalars@, w as nat, c as nat);
    let ghost start = buckets@;
    for i in 0..bases.len()
        invariant
            0 < c <= 16,
            w <= 256,
            start.len() == pow2(c as nat) - 1,
            buckets@.len() == start.len(),
            bases@.len() == scalars@.len(),
            points_wf(buckets@),
            bases_wf::<G>(bases@),
            k == base_logs::<G>(bases@),
            d == digits_at(scalars@, w as nat, c as nat),
            bases_ok::<G>(bases@) ==> forall|logs: Seq<int>| #[trigger]
                points_are(start, logs) ==> points_are(buckets@, filled(logs, k, d, i as nat)),
    {
        assert((w + 1) * c <= 257 * 16) by (nonlinear_arith)
            requires
                w <= 256,
                0 < c <= 16,
        ;
        let dig = scalars[i].digit(w, c);
        proof {
            lemma_pow2_pos(c as nat);
            lemma_mod_bound(scalars@[i as int].value() / pow2((w * c) as nat) as int, pow2(c as nat) as int);
        }
        let ghost before = buckets@;
        if dig != 0 {
            let sum = buckets[dig - 1].plus_base(&bases[i]);
            buckets[dig - 1] = sum;
        }
        proof {
            if bases_ok::<G>(bases@) {
                assert(is_multiple::<G>(bases@[i as int]));
                assert(G::base_is(bases@[i as int], k[i as int]));
                assert forall|logs: Seq<int>| #[trigger] points_are(start, logs) implies points_are(
                    buckets@,
                    filled(logs, k, d, (i + 1) as nat),
                ) by {
                    let prev = filled(logs, k, d, i as nat);
                    assert(points_are(before, prev));
                    if dig != 0 {
                        assert(before[dig - 1].is(prev[dig - 1]));
                        let next = filled(logs, k, d, (i + 1) as nat);
                        assert forall|e: int| 0 <= e < buckets@.len() implies (
                        #[trigger] buckets@[e]).is(next[e]) by {
                            if e != dig - 1 {
                                assert(buckets@[e] == before[e]);
                                assert(before[e].is(prev[e]));
                            }
                        }
                    }
                }
            }
        }
    }
}

/// Reduce one window's buckets to `Sum_d (d + 1) * buckets[d]` by a running sum from the top.
pub(crate) fn reduce_window<G: Group>(buckets: &[G]) -> (r: G)
    requires
        points_wf(buckets@),
    ensures
        r.wf(),
        forall|logs: Seq<int>| #[trigger]
            points_are(buckets@, logs) ==> r.is(window_value(logs)),
{
    let mut running = G::identity();
    let mut total = G::identity();
    let n = buckets.len();
    let mut d: usize = n;
    while d > 0
        invariant
            d <= n,
            n == buckets@.len(),
            points_wf(buckets@),
            running.wf(),
            total.wf(),
            forall|logs: Seq<int>| #[trigger]
                points_are(buckets@, logs) ==> running.is(total_from(logs, d as int)) && total.is(
                    weighted_from(logs, d as int),
                ),
        decreases d,
    {
        d = d - 1;
        let next = running.plus(&buckets[d]);
        let next_total = total.plus(&next);
        proof {
            assert forall|logs: Seq<int>| #[trigger] points_are(buckets@, logs) implies next.is(
                total_from(logs, d as int),
            ) && next_total.is(weighted_from(logs, d as int)) by {
                assert(buckets@[d as int].is(logs[d as int]));
                assert(running.is(total_from(logs, d + 1)));
                assert(total.is(weighted_from(logs, d + 1)));
            }
        }
        running = next;
        total = next_total;
    }
    proof {
        assert forall|logs: Seq<int>| #[trigger] points_are(buckets@, logs) implies total.is(
            window_value(logs),
        ) by {
            lemma_weighted(logs, 0);
            lemma_mul_basics(total_from(logs, 0));
        }
    }
    total
}

/// Double a point `c` times.
pub(crate) fn double_times<G: Group>(p: G, c: usize) -> (r: G)
    requires
        p.wf(),
    ensures
        r.wf(),
        forall|k: int| #[trigger] p.is(k) ==> r.is(pow2(c as nat) * k),
{
    let mut r = p;
    proof {
        lemma2_to64();
    }
    for i in 0..c
        invariant
            r.wf(),
            forall|k: int| #[trigger] p.is(k) ==> r.is(pow2(i as nat) * k),
    {
        let ghost before = r;
        r = r.double();
        proof {
            lemma_pow2_unfold((i + 1) as nat);
            assert forall|k: int| #[trigger] p.is(k) implies r.is(pow2((i + 1) as nat) * k) by {
                assert(before.is(pow2(i as nat) * k));
                lemma_mul_is_associative(2, pow2(i as nat) as int, k);
            }
        }
    }
    r
}

/// Window `w` of a flat run of buckets.
pub open spec fn window_of<G: Group>(points: Seq<G>, w: int, nbuckets: int) -> Seq<G> {
    points.subrange(w * nbuckets, (w + 1) * nbuckets)
}

/// Route bases into the buckets of every window, windows in parallel.
///
/// Trusted: rayon's `par_chunks_mut(nbuckets).enumerate().for_each(..)` hands chunk `w` of
/// the slice, of `nbuckets` elements, to the closure once, with the index `w`, and changes
/// nothing else; the chunks are disjoint, so the result is that of [`fill_window`] on each.
#[verifier::external_body]
fn fill_windows_parallel<G: Group, S: Digits>(
    buckets: &mut [G],
    nbuckets: usize,
    bases: &[G::Base],
    scalars: &[S],
    c: usize,
)
    requires
        0 < c <= 16,
        nbuckets == pow2(c as nat) - 1,
        old(buckets)@.len() % nbuckets as nat == 0,
        old(buckets)@.len() <= 256 * nbuckets,
        bases@.len() == scalars@.len(),
        points_wf(old(buckets)@),
        bases_wf::<G>(bases@),
    ensures
        final(buckets)@.len() == old(buckets)@.len(),
        points_wf(final(buckets)@),
        bases_ok::<G>(bases@) ==> forall|w: int, logs: Seq<int>|
            0 <= w < old(buckets)@.len() / nbuckets as nat && #[trigger] points_are(
                window_of(old(buckets)@, w, nbuckets as int),
                logs,
            ) ==> points_are(
                window_of(final(buckets)@, w, nbuckets as int),
                filled(
                    logs,
                    base_logs::<G>(bases@),
                    digits_at(scalars@, w as nat, c as nat),
                    bases@.len(),
                ),
            ),
{
    buckets
        .par_chunks_mut(nbuckets)
        .enumerate()
        .for_each(|(w, window)| fill_window::<G, S>(window, bases, scalars, w, c));
}

/// `n` copies of the identity.
fn identities<G: Group>(n: usize) -> (r: Vec<G>)
    ensures
        points_wf(r@),
        points_are(r@, Seq::new(n as nat, |i: int| 0int)),
{
    let mut r: Vec<G> = Vec::with_capacity(n);
    for i in 0..n
        invariant
            r@.len() == i,
            points_wf(r@),
            forall|j: int| 0 <= j < i ==> (#[trigger] r@[j]).is(0),
    {
        r.push(G::identity());
    }
    r
}

/// Buckets of a window at rest sum to nothing.
proof fn lemma_empty_window(n: nat)
    ensures
        window_value(Seq::new(n, |i: int| 0int)) == 0,
{
    let z = Seq::new(n, |i: int| 0int);
    let f = |d: int| (d + 1) * z[d];
    assert forall|d: int| 0 <= d < n implies #[trigger] f(d) == 0 by {
        lemma_mul_basics(d + 1);
    }
    lemma_sum_zero(f, n);
}

/// Windows of width `c` that cover `nbits` bits.
fn windows_for(nbits: usize, c: usize) -> (r: usize)
    requires
        0 < c <= 16,
        0 < nbits <= 256,
    ensures
        0 < r <= 256,
        nbits <= r * c,
{
    let r = (nbits + (c - 1)) / c;
    proof {
        let a = nbits + (c - 1);
        lemma_fundamental_div_mod(a, c as int);
        lemma_mod_bound(a, c as int);
        lemma_mul_is_commutative(c as int, a / c as int);
        lemma_div_non_zero(a, c as int);
        lemma_div_is_ordered_by_denominator(a, 1, c as int);
        assert(a / c as int <= 256) by (nonlinear_arith)
            requires
                a == nbits + (c - 1),
                nbits <= 256,
                0 < c,
                a == c * (a / c as int) + a % c as int,
                0 <= a % c as int,
        ;
    }
    r
}

/// The scalars' digits recombine: they fit in the windows.
proof fn lemma_values_fit<S: Digits>(scalars: Seq<S>, nbits: nat, width: nat)
    requires
        scalars_fit(scalars, nbits),
        nbits <= width,
    ensures
        forall|i: int|
            0 <= i < scalars.len() ==> 0 <= #[trigger] values(scalars)[i] < pow2(width),
{
    assert(pow2(nbits) <= pow2(width)) by {
        if nbits < width {
            lemma_pow2_strictly_increases(nbits, width);
        }
    }
    assert forall|i: int| 0 <= i < scalars.len() implies 0 <= #[trigger] values(scalars)[i]
        < pow2(width) by {
        assert(scalars[i].value() == values(scalars)[i]);
    }
}

/// Digits are at most the number of buckets.
proof fn lemma_digits_fit<S: Digits>(scalars: Seq<S>, w: nat, c: nat)
    ensures
        forall|i: int|
            0 <= i < scalars.len() ==> 0 <= #[trigger] digits_at(scalars, w, c)[i] <= pow2(c) - 1,
{
    lemma_pow2_pos(c);
    assert forall|i: int| 0 <= i < scalars.len() implies 0 <= #[trigger] digits_at(
        scalars,
        w,
        c,
    )[i] <= pow2(c) - 1 by {
        lemma_mod_bound(scalars[i].value() / pow2(w * c) as int, pow2(c) as int);
    }
}

/// What a window sums to after bases pass.
proof fn lemma_window_after<S: Digits>(
    logs: Seq<int>,
    k: Seq<int>,
    scalars: Seq<S>,
    w: nat,
    c: nat,
)
    requires
        logs.len() == pow2(c) - 1,
        k.len() == scalars.len(),
    ensures
        filled(logs, k, digits_at(scalars, w, c), k.len()).len() == logs.len(),
        window_value(filled(logs, k, digits_at(scalars, w, c), k.len())) == window_value(logs)
            + sum(|i: int| digit_of(values(scalars)[i], w, c) * k[i], k.len()),
{
    let d = digits_at(scalars, w, c);
    lemma_digits_fit(scalars, w, c);
    lemma_filled(logs, k, d, k.len());
    lemma_sum_eq(
        |i: int| d[i] * k[i],
        |i: int| digit_of(values(scalars)[i], w, c) * k[i],
        k.len(),
    );
}

/// In-core bucketed Pippenger over scalars of at most `nbits` bits.
pub fn pippenger<G: Group, S: Digits>(bases: &[G::Base], scalars: &[S], nbits: usize) -> (r: G)
    requires
        0 < nbits <= 256,
        bases@.len() == scalars@.len(),
        scalars_fit(scalars@, nbits as nat),
        bases_wf::<G>(bases@),
    ensures
        r.wf(),
        bases_ok::<G>(bases@) ==> r.is(
            inner_product(values(scalars@), base_logs::<G>(bases@)),
        ),
{
    let n = bases.len();
    if n == 0 {
        return G::identity();
    }
    let c = window_bits(n);
    let num_windows = windows_for(nbits, c);
    proof {
        lemma_width_power(c);
    }
    let nbuckets: usize = two_to(c) - 1;

    let ghost k = base_logs::<G>(bases@);
    let ghost v = values(scalars@);
    let ghost ok = bases_ok::<G>(bases@);
    let ghost s = |w: int| 0 + sum(|i: int| digit_of(v[i], w as nat, c as nat) * k[i], n as nat);

    let mut acc = G::identity();
    let mut w: usize = num_windows;
    while w > 0
        invariant
            0 < c <= 16,
            w <= num_windows <= 256,
            nbuckets == pow2(c as nat) - 1,
            acc.wf(),
            bases_wf::<G>(bases@),
            n == bases@.len(),
            bases@.len() == scalars@.len(),
            k == base_logs::<G>(bases@),
            v == values(scalars@),
            ok == bases_ok::<G>(bases@),
            s == (|w: int|
                0 + sum(|i: int| digit_of(v[i], w as nat, c as nat) * k[i], n as nat)),
            ok ==> acc.is(horner(s, w as int, num_windows as int, c as nat)),
        decreases w,
    {
        if w != num_windows {
            acc = double_times(acc, c);
        } else {
            proof {
                lemma_mul_basics(pow2(c as nat) as int);
            }
        }
        w = w - 1;
        let mut buckets: Vec<G> = identities(nbuckets);
        fill_window::<G, S>(buckets.as_mut_slice(), bases, scalars, w, c);
        let window = reduce_window(buckets.as_slice());
        let next = acc.plus(&window);
        proof {
            let start = Seq::new(nbuckets as nat, |i: int| 0int);
            lemma_empty_window(nbuckets as nat);
            lemma_window_after(start, k, scalars@, w as nat, c as nat);
            if ok {
                assert(points_are(
                    buckets@,
                    filled(start, k, digits_at(scalars@, w as nat, c as nat), n as nat),
                ));
                assert(window.is(s(w as int)));
                assert(acc.is(
                    pow2(c as nat) * horner(s, w + 1, num_windows as int, c as nat),
                ));
                assert(next.is(horner(s, w as int, num_windows as int, c as nat)));
            }
        }
        acc = next;
    }
    proof {
        lemma_values_fit(scalars@, nbits as nat, (num_windows * c) as nat);
        let z = |w: int| 0int;
        lemma_block_total(z, v, k, n as nat, num_windows as nat, c as nat);
        lemma_horner_eq(
            s,
            |w: int| z(w) + sum(|i: int| digit_of(v[i], w as nat, c as nat) * k[i], n as nat),
            0,
            num_windows as int,
            c as nat,
        );
        lemma_horner_zero(z, 0, num_windows as int, c as nat);
    }
    acc
}

proof fn lemma_horner_zero(s: spec_fn(int) -> int, w: int, num_windows: int, c: nat)
    requires
        0 <= w,
        forall|v: int| 0 <= v < num_windows ==> #[trigger] s(v) == 0,
    ensures
        horner(s, w, num_windows, c) == 0,
    decreases num_windows - w,
{
    if w < num_windows {
        lemma_horner_zero(s, w + 1, num_windows, c);
        assert(s(w) == 0);
        lemma_mul_basics(pow2(c) as int);
    }
}

/// A window's buckets can be counted.
proof fn lemma_width_power(c: usize)
    requires
        c <= 16,
    ensures
        1 <= pow2(c as nat) <= 65536,
{
    lemma2_to64();
    lemma_pow2_pos(c as nat);
    if c < 16 {
        lemma_pow2_strictly_increases(c as nat, 16);
    }
}

/// The buckets of every window, resident while bases stream past.
pub struct Accumulator<G: Group> {
    c: usize,
    nbits: usize,
    num_windows: usize,
    nbuckets: usize,
    points: Vec<G>,
    /// The multiples that the buckets are, window by window.
    logs: Ghost<Seq<Seq<int>>>,
    /// Every base so far was a multiple of the generator.
    sound: Ghost<bool>,
}

impl<G: Group> Accumulator<G> {
    /// The bases and scalars so far, as a multiple of the generator.
    pub closed spec fn total(&self) -> int {
        horner(
            |w: int| window_value(self.logs@[w]),
            0,
            self.num_windows as int,
            self.c as nat,
        )
    }

    /// Every base so far was a multiple of the generator.
    pub closed spec fn sound(&self) -> bool {
        self.sound@
    }

    /// The number of bits a scalar may have.
    pub closed spec fn nbits(&self) -> nat {
        self.nbits as nat
    }

    /// The windows cover the scalars, and every bucket holds what the model says.
    pub closed spec fn wf(&self) -> bool {
        &&& 0 < self.c <= 16
        &&& 0 < self.num_windows <= 256
        &&& self.nbits <= self.num_windows * self.c
        &&& self.nbuckets == pow2(self.c as nat) - 1
        &&& self.points@.len() == self.num_windows * self.nbuckets
        &&& points_wf(self.points@)
        &&& self.logs@.len() == self.num_windows
        &&& forall|w: int| 0 <= w < self.num_windows ==> (#[trigger] self.logs@[w]).len() == self.nbuckets
        &&& self.sound@ ==> forall|w: int|
            0 <= w < self.num_windows ==> #[trigger] points_are(
                window_of(self.points@, w, self.nbuckets as int),
                self.logs@[w],
            )
    }

    /// Empty buckets, for `n` bases in all and scalars of at most `nbits` bits.
    pub fn new(n: usize, nbits: usize) -> (r: Self)
        requires
            0 < nbits <= 256,
        ensures
            r.wf(),
            r.sound(),
            r.nbits() == nbits,
            r.total() == 0,
    {
        let c = window_bits(n);
        let num_windows = windows_for(nbits, c);
        proof {
            lemma_width_power(c);
        }
        let nbuckets: usize = two_to(c) - 1;
        proof {
            lemma_mul_upper_bound(num_windows as int, 256, nbuckets as int, 65535);
        }
        let points: Vec<G> = identities(num_windows * nbuckets);
        let ghost empty = Seq::new(nbuckets as nat, |i: int| 0int);
        let logs: Ghost<Seq<Seq<int>>> = Ghost(Seq::new(num_windows as nat, |w: int| empty));
        proof {
            lemma_empty_window(nbuckets as nat);
            lemma_horner_zero(
                |w: int| window_value(logs@[w]),
                0,
                num_windows as int,
                c as nat,
            );
            assert forall|w: int| 0 <= w < num_windows implies #[trigger] points_are(
                window_of(points@, w, nbuckets as int),
                logs@[w],
            ) by {
                lemma_window_fits(w, num_windows as int, nbuckets as int);
                let part = window_of(points@, w, nbuckets as int);
                assert forall|i: int| 0 <= i < part.len() implies (#[trigger] part[i]).is(
                    logs@[w][i],
                ) by {
                    assert(part[i] == points@[w * nbuckets + i]);
                }
            }
        }
        Accumulator { c, nbits, num_windows, nbuckets, points, logs, sound: Ghost(true) }
    }

    /// Route a block of bases into every window's buckets.
    pub fn absorb<S: Digits>(&mut self, bases: &[G::Base], scalars: &[S])
        requires
            old(self).wf(),
            bases@.len() == scalars@.len(),
            scalars_fit(scalars@, old(self).nbits()),
            bases_wf::<G>(bases@),
        ensures
            final(self).wf(),
            final(self).nbits() == old(self).nbits(),
            final(self).sound() == (old(self).sound() && bases_ok::<G>(bases@)),
            final(self).total() == old(self).total() + inner_product(
                values(scalars@),
                base_logs::<G>(bases@),
            ),
    {
        let ghost before = *self;
        let c = self.c;
        let nbuckets = self.nbuckets;
        let ghost nw = self.num_windows as int;
        let ghost k = base_logs::<G>(bases@);
        let ghost v = values(scalars@);
        proof {
            lemma_width_power(c);
            lemma_mul_inequality(nw, 256, nbuckets as int);
            lemma_pow2_unfold(c as nat);
            lemma_pow2_pos((c - 1) as nat);
            lemma_mod_multiples_basic(nw, nbuckets as int);
            lemma_div_by_multiple(nw, nbuckets as int);
        }
        fill_windows_parallel::<G, S>(self.points.as_mut_slice(), nbuckets, bases, scalars, c);
        let ghost logs = Seq::new(
            nw as nat,
            |w: int| filled(before.logs@[w], k, digits_at(scalars@, w as nat, c as nat), k.len()),
        );
        let ghost sound = before.sound@ && bases_ok::<G>(bases@);
        self.logs = Ghost(logs);
        self.sound = Ghost(sound);
        proof {
            assert forall|w: int| 0 <= w < nw implies (#[trigger] logs[w]).len() == nbuckets
                && window_value(logs[w]) == window_value(before.logs@[w]) + sum(
                |i: int| digit_of(v[i], w as nat, c as nat) * k[i],
                k.len(),
            ) by {
                assert(before.logs@[w].len() == nbuckets);
                lemma_window_after(before.logs@[w], k, scalars@, w as nat, c as nat);
            }
            if sound {
                assert forall|w: int| 0 <= w < nw implies #[trigger] points_are(
                    window_of(self.points@, w, nbuckets as int),
                    logs[w],
                ) by {
                    assert(points_are(
                        window_of(before.points@, w, nbuckets as int),
                        before.logs@[w],
                    ));
                }
            }
            lemma_values_fit(scalars@, before.nbits as nat, (nw * c) as nat);
            let s = |w: int| window_value(before.logs@[w]);
            lemma_block_total(s, v, k, k.len(), nw as nat, c as nat);
            lemma_horner_eq(
                |w: int| window_value(logs[w]),
                |w: int| s(w) + sum(|i: int| digit_of(v[i], w as nat, c as nat) * k[i], k.len()),
                0,
                nw,
                c as nat,
            );
        }
    }

    /// Reduce the windows and recombine them.
    pub fn finish(&self) -> (r: G)
        requires
            self.wf(),
        ensures
            r.wf(),
            self.sound() ==> r.is(self.total()),
    {
        let mut acc = G::identity();
        let mut w: usize = self.num_windows;
        let ghost s = |w: int| window_value(self.logs@[w]);
        while w > 0
            invariant
                self.wf(),
                acc.wf(),
                w <= self.num_windows,
                s == (|w: int| window_value(self.logs@[w])),
                self.sound@ ==> acc.is(
                    horner(s, w as int, self.num_windows as int, self.c as nat),
                ),
            decreases w,
        {
            if w != self.num_windows {
                acc = double_times(acc, self.c);
            } else {
                proof {
                    lemma_mul_basics(pow2(self.c as nat) as int);
                }
            }
            w = w - 1;
            proof {
                lemma_window_fits(w as int, self.num_windows as int, self.nbuckets as int);
            }
            let points = self.points.as_slice();
            let held: usize = points.len();
            assert((w + 1) * self.nbuckets <= held);
            let at: usize = w * self.nbuckets;
            let part = vstd::slice::slice_subrange(points, at, at + self.nbuckets);
            let window = reduce_window(part);
            let next = acc.plus(&window);
            proof {
                assert(part@ == window_of(self.points@, w as int, self.nbuckets as int));
                if self.sound@ {
                    assert(points_are(part@, self.logs@[w as int]));
                    assert(window.is(s(w as int)));
                    assert(acc.is(
                        pow2(self.c as nat) * horner(
                            s,
                            w + 1,
                            self.num_windows as int,
                            self.c as nat,
                        ),
                    ));
                }
            }
            acc = next;
        }
        acc
    }
}

/// A window lies within the buckets.
proof fn lemma_window_fits(w: int, num_windows: int, nbuckets: int)
    requires
        0 <= w < num_windows,
        0 <= nbuckets,
    ensures
        0 <= w * nbuckets,
        w * nbuckets + nbuckets == (w + 1) * nbuckets,
        (w + 1) * nbuckets <= num_windows * nbuckets,
{
    lemma_mul_nonnegative(w, nbuckets);
    lemma_mul_is_distributive_add_other_way(nbuckets, w, 1);
    lemma_mul_inequality(w + 1, num_windows, nbuckets);
}

/// Streaming in blocks computes the whole: the product of two runs of bases and scalars,
/// one after the other, is the sum of their products.
pub proof fn law_blocks_add(v1: Seq<int>, k1: Seq<int>, v2: Seq<int>, k2: Seq<int>)
    requires
        v1.len() == k1.len(),
        v2.len() == k2.len(),
    ensures
        inner_product(v1 + v2, k1 + k2) == inner_product(v1, k1) + inner_product(v2, k2),
    decreases v2.len(),
{
    if v2.len() == 0 {
        assert(v1 + v2 == v1);
        assert(k1 + k2 == k1);
    } else {
        let v3 = v2.drop_last();
        let k3 = k2.drop_last();
        law_blocks_add(v1, k1, v3, k3);
        lemma_product_last(v2, k2);
        lemma_product_last(v1 + v2, k1 + k2);
        assert((v1 + v2).drop_last() == v1 + v3);
        assert((k1 + k2).drop_last() == k1 + k3);
    }
}

/// A product, with its last term split off.
proof fn lemma_product_last(v: Seq<int>, k: Seq<int>)
    requires
        v.len() == k.len(),
        v.len() > 0,
    ensures
        inner_product(v, k) == inner_product(v.drop_last(), k.drop_last()) + v.last() * k.last(),
{
    let a = v.drop_last();
    let b = k.drop_last();
    lemma_sum_eq(|i: int| v[i] * k[i], |i: int| a[i] * b[i], a.len());
}

/// Pairs of a scalar and a base.
pub open spec fn pairs(v: Seq<int>, k: Seq<int>) -> Seq<(int, int)> {
    Seq::new(v.len(), |i: int| (v[i], k[i]))
}

/// The order in which the bases come does not matter: runs that hold the same pairs have the
/// same product.
pub proof fn law_order_is_irrelevant(v1: Seq<int>, k1: Seq<int>, v2: Seq<int>, k2: Seq<int>)
    requires
        v1.len() == k1.len(),
        v2.len() == k2.len(),
        pairs(v1, k1).to_multiset() == pairs(v2, k2).to_multiset(),
    ensures
        inner_product(v1, k1) == inner_product(v2, k2),
    decreases v1.len(),
{
    broadcast use vstd::seq_lib::group_to_multiset_ensures;

    let p1 = pairs(v1, k1);
    let p2 = pairs(v2, k2);
    assert(p1.to_multiset().len() == p2.to_multiset().len());
    assert(p1.len() == p2.len());
    if v1.len() > 0 {
        let last = p1.last();
        assert(p1.contains(last));
        assert(p1.to_multiset().count(last) > 0);
        assert(p2.contains(last));
        let j = choose|j: int| 0 <= j < p2.len() && p2[j] == last;
        lemma_product_last(v1, k1);
        assert(p1.remove(p1.len() - 1) == pairs(v1.drop_last(), k1.drop_last()));
        assert(p2.remove(j) == pairs(v2.remove(j), k2.remove(j)));
        law_order_is_irrelevant(v1.drop_last(), k1.drop_last(), v2.remove(j), k2.remove(j));
        let (va, ka) = (v2.subrange(0, j), k2.subrange(0, j));
        let (vb, kb) = (v2.subrange(j, v2.len() as int), k2.subrange(j, k2.len() as int));
        let (vc, kc) = (vb.subrange(1, vb.len() as int), kb.subrange(1, kb.len() as int));
        let (one_v, one_k) = (seq![v2[j]], seq![k2[j]]);
        assert(v2 == va + vb && k2 == ka + kb);
        assert(vb == one_v + vc && kb == one_k + kc);
        assert(v2.remove(j) == va + vc && k2.remove(j) == ka + kc);
        law_blocks_add(va, ka, vb, kb);
        law_blocks_add(one_v, one_k, vc, kc);
        law_blocks_add(va, ka, vc, kc);
        lemma_product_last(one_v, one_k);
        assert(inner_product(one_v.drop_last(), one_k.drop_last()) == 0);
    }
}

} // verus!
