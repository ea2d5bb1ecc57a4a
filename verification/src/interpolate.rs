//! Interpolation over the powers of a root of unity: the inverse transform, and why it undoes
//! the transform.

use halo2curves::bn256::Fr;
use vstd::arithmetic::div_mod::*;
use vstd::arithmetic::mul::*;
use vstd::arithmetic::power::*;
use vstd::arithmetic::power2::*;
use vstd::prelude::*;

use crate::field::{
    canonical, canonical_all, dft, dft_at, fmul, fpow, fr_fft, fr_mul, fr_pow, fr_two_inv,
    lemma_modulus_bounds, modulus, primitive_root, two_inv, val, vals,
};
use crate::four_step::{
    lemma_fpow_fpow, lemma_mul_congruent, lemma_pow_of_fpow, lemma_pow_order,
    lemma_primitive_root_power,
};
use crate::powers::lemma_exponent_fits;
use crate::sums::{
    lemma_sum_congruent, lemma_sum_eq, lemma_sum_scale, lemma_sum_split, lemma_sum_swap,
    lemma_sum_zero, sum,
};

verus! {

/// The coefficients of the polynomial of degree below `2^k` with the values `v` at the powers
/// of `w`: the transform at the powers of the inverse of `w`, divided by `2^k`.
pub open spec fn interpolated(v: Seq<int>, w: int, k: nat) -> Seq<int> {
    let inverse = fpow(w, (pow2(k) - 1) as nat);
    Seq::new(v.len(), |j: int| fmul(dft_at(v, inverse, j), fpow(two_inv(), k)))
}

/// The sum of the powers of `w^e` over one period.
spec fn period(w: int, e: nat, n: nat) -> int {
    sum(|j: int| pow(w, (e * j) as nat), n)
}

/// The powers of `w^e` over one period sum to zero, unless they are all one.
proof fn lemma_period(w: int, e: nat, k: nat)
    requires
        primitive_root(w, pow2(k) as int),
    ensures
        period(w, e, pow2(k)) % modulus() == (if e as int % pow2(k) as int == 0 {
            pow2(k) as int
        } else {
            0
        }) % modulus(),
    decreases k,
{
    let m = modulus();
    let f = |j: int| pow(w, (e * j) as nat);
    lemma_modulus_bounds();
    lemma2_to64();
    if k == 0 {
        lemma_mul_basics(e as int);
        lemma_pow0(w);
        assert(sum(f, 1) == sum(f, 0) + f(0));
        assert(e as int % 1 == 0);
    } else {
        let n = pow2(k);
        let h = pow2((k - 1) as nat);
        lemma_pow2_unfold(k);
        lemma_pow2_pos((k - 1) as nat);
        assert(n == 2 * h && n as int / 2 == h);
        lemma_sum_split(f, h, h);
        let g = |j: int| f(h + j);
        // The second half is the first times `(-1)^e`.
        let s = pow(w, e * h);
        lemma_pow_of_fpow(w, h, e);
        lemma_mul_is_commutative(e as int, h as int);
        assert(s % m == pow(m - 1, e) % m);
        assert forall|j: int| 0 <= j < h implies #[trigger] g(j) == (|j: int| s * f(j))(j) by {
            lemma_mul_nonnegative(e as int, j);
            lemma_mul_is_distributive_add(e as int, h as int, j);
            lemma_pow_adds(w, e * h, (e * j) as nat);
            assert((e * (h + j)) as nat == e * h + (e * j) as nat);
        }
        lemma_sum_eq(g, |j: int| s * f(j), h);
        lemma_sum_scale(f, s, h);
        let half = sum(f, h);
        assert(sum(f, n) == half + s * half);
        lemma_sign(e);
        if e % 2 == 1 {
            lemma_mul_congruent(s, m - 1, half, half, m);
            lemma_add_mod_noop(half, s * half, m);
            lemma_add_mod_noop(half, (m - 1) * half, m);
            assert(half + (m - 1) * half == half * m) by (nonlinear_arith);
            lemma_mod_multiples_basic(half, m);
            assert(sum(f, n) % m == 0);
            assert(e as int % n as int != 0) by {
                if e as int % n as int == 0 {
                    lemma_fundamental_div_mod(e as int, n as int);
                    let t = e as int / n as int;
                    lemma_mul_is_associative(2, h as int, t);
                    assert(e == 2 * (h * t));
                }
            }
            lemma_small_mod(0, m as nat);
        } else {
            let d = e / 2;
            assert(e == 2 * d);
            lemma_mul_congruent(s, 1, half, half, m);
            lemma_add_mod_noop(half, s * half, m);
            lemma_add_mod_noop(half, half, m);
            assert(sum(f, n) % m == (2 * half) % m);
            // Over half a period, the powers are those of the square.
            let q = fpow(w, 2);
            lemma_square_root(w, k);
            lemma_period(q, d, (k - 1) as nat);
            let r = |j: int| pow(q, (d * j) as nat);
            assert forall|j: int| 0 <= j < h implies (#[trigger] f(j)) % m == r(j) % m by {
                lemma_mul_nonnegative(d as int, j);
                lemma_pow_of_fpow(w, 2, (d * j) as nat);
                lemma_mul_is_associative(2, d as int, j);
                assert(2 * (d * j) as nat == (e * j) as nat);
            }
            lemma_sum_congruent(f, r, h, m);
            assert(half % m == period(q, d, h) % m);
            lemma_mul_mod_noop_right(2, half, m);
            let x = if d as int % h as int == 0 {
                h as int
            } else {
                0
            };
            lemma_mul_mod_noop_right(2, x, m);
            assert((2 * half) % m == (2 * x) % m);
            lemma_truncate_middle(d as int, 2, h as int);
            assert(e as int % n as int == 2 * (d as int % h as int));
        }
    }
}

/// Powers of `-1`.
proof fn lemma_sign(e: nat)
    ensures
        e % 2 == 0 ==> pow(modulus() - 1, e) % modulus() == 1int % modulus(),
        e % 2 == 1 ==> pow(modulus() - 1, e) % modulus() == (modulus() - 1) % modulus(),
    decreases e,
{
    let m = modulus();
    lemma_modulus_bounds();
    if e == 0 {
        lemma_pow0(m - 1);
    } else {
        let d = (e - 1) as nat;
        lemma_sign(d);
        reveal(pow);
        assert(pow(m - 1, e) == (m - 1) * pow(m - 1, d));
        if d % 2 == 0 {
            lemma_mul_congruent(m - 1, m - 1, pow(m - 1, d), 1, m);
        } else {
            lemma_mul_congruent(m - 1, m - 1, pow(m - 1, d), m - 1, m);
            assert((m - 1) * (m - 1) == m * (m - 2) + 1) by (nonlinear_arith);
            lemma_mod_multiples_vanish(m - 2, 1, m);
        }
    }
}

/// The square of a primitive root is a primitive root of half the order.
proof fn lemma_square_root(w: int, k: nat)
    requires
        k > 0,
        primitive_root(w, pow2(k) as int),
    ensures
        primitive_root(fpow(w, 2), pow2((k - 1) as nat) as int),
{
    lemma_pow2_unfold(k);
    lemma2_to64();
    if k > 1 {
        lemma_pow2_unfold((k - 1) as nat);
        let q = pow2((k - 2) as nat);
        lemma_fpow_fpow(w, 2, q);
        assert(pow2(k) as int / 2 == 2 * q);
        assert(pow2((k - 1) as nat) as int / 2 == q);
    }
}

/// The last power before one, the inverse, is a primitive root too.
proof fn lemma_inverse_root(w: int, k: nat)
    requires
        primitive_root(w, pow2(k) as int),
    ensures
        primitive_root(fpow(w, (pow2(k) - 1) as nat), pow2(k) as int),
{
    if k > 0 {
        let n = pow2(k);
        let h = pow2((k - 1) as nat);
        lemma_pow2_unfold(k);
        lemma_pow2_pos((k - 1) as nat);
        lemma_primitive_root_power(w, n as int);
        lemma_fpow_fpow(w, (n - 1) as nat, h);
        assert((n - 1) * h == h + n * (h - 1)) by (nonlinear_arith)
            requires
                n == 2 * h,
        ;
        lemma_pow_order(w, n, h, (h - 1) as nat);
        reveal(fpow);
    } else {
        lemma2_to64();
    }
}

/// `2^k` and its inverse.
proof fn lemma_size_inverse(k: nat)
    ensures
        (pow2(k) * fpow(two_inv(), k)) % modulus() == 1,
{
    let m = modulus();
    let t = two_inv();
    lemma_modulus_bounds();
    reveal(fpow);
    lemma_mul_mod_noop_right(pow2(k) as int, pow(t, k), m);
    lemma_pow2(k);
    lemma_pow_distributes(2, t, k);
    assert(2 * t == m + 1) by {
        reveal(modulus);
    }
    lemma_pow_mod_noop(m + 1, k, m);
    lemma_mod_multiples_vanish(1, 1, m);
    lemma_small_mod(1, m as nat);
    lemma1_pow(k);
}

/// A sum with one term that is not zero.
proof fn lemma_sum_single(f: spec_fn(int) -> int, n: nat, at: int)
    requires
        0 <= at < n,
        forall|i: int| 0 <= i < n && i != at ==> #[trigger] f(i) == 0,
    ensures
        sum(f, n) == f(at),
    decreases n,
{
    if at < n - 1 {
        lemma_sum_single(f, (n - 1) as nat, at);
        assert(f(n - 1) == 0);
    } else {
        lemma_sum_zero(f, (n - 1) as nat);
    }
}

/// Interpolation undoes the transform: the polynomial has the values that it was made from, at
/// the powers of the root.
pub proof fn law_interpolation(v: Seq<int>, w: int, k: nat)
    requires
        v.len() == pow2(k),
        primitive_root(w, pow2(k) as int),
        forall|i: int| 0 <= i < v.len() ==> 0 <= #[trigger] v[i] < modulus(),
    ensures
        dft(interpolated(v, w, k), w) == v,
{
    assert forall|l: int| 0 <= l < v.len() implies dft_at(interpolated(v, w, k), w, l) == v[l] by {
        lemma_interpolated_at(v, w, k, l);
    }
    assert(dft(interpolated(v, w, k), w) =~= v);
}

proof fn lemma_interpolated_at(v: Seq<int>, w: int, k: nat, l: int)
    requires
        v.len() == pow2(k),
        primitive_root(w, pow2(k) as int),
        0 <= l < v.len(),
        0 <= v[l] < modulus(),
    ensures
        dft_at(interpolated(v, w, k), w, l) == v[l],
{
    let m = modulus();
    let n = pow2(k);
    let u = fpow(w, (n - 1) as nat);
    let c = interpolated(v, w, k);
    let inv = fpow(two_inv(), k);
    lemma_modulus_bounds();
    lemma_pow2_pos(k);
    let e = |i: int| ((n - 1) * i + l) as nat;
    let cell = |i: int, j: int| v[i] * pow(w, (e(i) * j) as nat);
    // Each coefficient's part.
    let part = |j: int| c[j] * pow(w, (l * j) as nat);
    let wide = |j: int| inv * sum(|i: int| cell(i, j), n);
    assert forall|j: int| 0 <= j < n implies (#[trigger] part(j)) % m == wide(j) % m by {
        lemma_coefficient_part(v, w, k, l, j);
        let f = |i: int| ((n - 1) * i + l) as nat;
        lemma_sum_eq(
            |i: int| cell(i, j),
            |i: int| v[i] * pow(w, (f(i) * j) as nat),
            n,
        );
    }
    lemma_sum_congruent(part, wide, n, m);
    let inner = |j: int| sum(|i: int| cell(i, j), n);
    lemma_sum_eq(wide, |j: int| inv * inner(j), n);
    lemma_sum_scale(inner, inv, n);
    // The terms, gathered by value.
    let flipped = |j: int, i: int| cell(i, j);
    lemma_sum_swap(flipped, n, n);
    let gathered = |i: int| sum(|j: int| flipped(j, i), n);
    let outer = |j: int| sum(|i: int| flipped(j, i), n);
    assert forall|j: int| 0 <= j < n implies #[trigger] inner(j) == outer(j) by {
        lemma_sum_eq(|i: int| cell(i, j), |i: int| flipped(j, i), n);
    }
    lemma_sum_eq(inner, outer, n);
    let only = |i: int|
        if i == l {
            v[l] * n
        } else {
            0
        };
    assert forall|i: int| 0 <= i < n implies (#[trigger] gathered(i)) % m == only(i) % m by {
        lemma_mul_nonnegative(n - 1, i);
        let p = |j: int| pow(w, (e(i) * j) as nat);
        lemma_sum_eq(|j: int| flipped(j, i), |j: int| v[i] * p(j), n);
        lemma_sum_scale(p, v[i], n);
        lemma_period(w, e(i), k);
        lemma_sum_eq(p, |j: int| pow(w, (e(i) * j) as nat), n);
        let x = if e(i) as int % n as int == 0 {
            n as int
        } else {
            0
        };
        lemma_mul_congruent(v[i], v[i], sum(p, n), x, m);
        assert(e(i) == n * i + (l - i)) by (nonlinear_arith)
            requires
                e(i) == (n - 1) * i + l,
        ;
        lemma_mod_multiples_vanish(i, l - i, n as int);
        if i == l {
            lemma_small_mod(0, n);
        } else if l > i {
            lemma_small_mod((l - i) as nat, n);
        } else {
            lemma_mod_add_multiples_vanish(l - i, n as int);
            lemma_small_mod((l - i + n) as nat, n);
        }
        lemma_mul_basics(v[i]);
    }
    lemma_sum_congruent(gathered, only, n, m);
    lemma_sum_single(only, n, l);
    // The sum is `v[l] * n`, which the inverse of `n` undoes.
    lemma_mul_congruent(inv, inv, sum(gathered, n), v[l] * n, m);
    lemma_size_inverse(k);
    assert(inv * (v[l] * n) == v[l] * (n * inv)) by (nonlinear_arith);
    lemma_small_mod(1, m as nat);
    lemma_mul_congruent(v[l], v[l], n * inv, 1, m);
    lemma_mul_basics(v[l]);
    lemma_small_mod(v[l] as nat, m as nat);
    reveal(dft_at);
    assert(c.len() == n);
}

/// What a coefficient adds at a power of the root.
proof fn lemma_coefficient_part(v: Seq<int>, w: int, k: nat, l: int, j: int)
    requires
        v.len() == pow2(k),
        primitive_root(w, pow2(k) as int),
        0 <= l < v.len(),
        0 <= j < v.len(),
    ensures
        ({
            let n = pow2(k);
            let e = |i: int| ((n - 1) * i + l) as nat;
            (interpolated(v, w, k)[j] * pow(w, (l * j) as nat)) % modulus() == (fpow(
                two_inv(),
                k,
            ) * sum(|i: int| v[i] * pow(w, (e(i) * j) as nat), n)) % modulus()
        }),
{
    let m = modulus();
    let n = pow2(k);
    let u = fpow(w, (n - 1) as nat);
    let inv = fpow(two_inv(), k);
    let e = |i: int| ((n - 1) * i + l) as nat;
    let a = pow(w, (l * j) as nat);
    let f = |i: int| v[i] * pow(u, (j * i) as nat);
    let g = |i: int| v[i] * pow(w, (e(i) * j) as nat);
    lemma_modulus_bounds();
    lemma_pow2_pos(k);
    lemma_mul_nonnegative(l, j);
    let d = sum(f, n);
    reveal(dft_at);
    assert(dft_at(v, u, j) == d % m);
    reveal(fmul);
    let cj = interpolated(v, w, k)[j];
    assert(cj == ((d % m) * inv) % m);
    lemma_mul_mod_noop_left(d, inv, m);
    assert(cj % m == (d * inv) % m) by {
        lemma_mod_twice(d * inv, m);
    }
    lemma_mul_congruent(cj, d * inv, a, a, m);
    assert((d * inv) * a == inv * (a * d)) by (nonlinear_arith);
    lemma_sum_scale(f, a, n);
    let h = |i: int| a * f(i);
    assert forall|i: int| 0 <= i < n implies (#[trigger] h(i)) % m == g(i) % m by {
        lemma_mul_nonnegative(j, i);
        lemma_mul_nonnegative(n - 1, i);
        let ji = (j * i) as nat;
        lemma_pow_of_fpow(w, (n - 1) as nat, ji);
        let b = pow(w, ((n - 1) as nat) * ji);
        lemma_mul_congruent(a * v[i], a * v[i], pow(u, ji), b, m);
        lemma_mul_is_associative(a, v[i], pow(u, ji));
        assert((a * v[i]) * b == v[i] * (a * b)) by (nonlinear_arith);
        lemma_pow_adds(w, (l * j) as nat, ((n - 1) as nat) * ji);
        assert(l * j + (n - 1) * (j * i) == ((n - 1) * i + l) * j) by (nonlinear_arith);
        lemma_mul_nonnegative(n - 1, j * i);
        assert((l * j) as nat + ((n - 1) as nat) * ji == (e(i) * j) as nat);
    }
    lemma_sum_congruent(h, g, n, m);
    lemma_mul_congruent(inv, inv, a * d, sum(g, n), m);
}

/// The coefficients of the polynomial with the given values at the powers of `omega`, an
/// element of order `2^k`.
pub fn interpolate(values: &[Fr], omega: Fr, k: usize) -> (r: Vec<Fr>)
    requires
        values@.len() == pow2(k as nat),
        canonical_all(values@),
        canonical(omega),
        primitive_root(val(omega), pow2(k as nat) as int),
    ensures
        canonical_all(r@),
        r@.len() == values@.len(),
        vals(r@) == interpolated(vals(values@), val(omega), k as nat),
        dft(vals(r@), val(omega)) == vals(values@),
{
    let n = values.len();
    let ghost v = vals(values@);
    let mut t: Vec<Fr> = Vec::with_capacity(n);
    for i in 0..n
        invariant
            n == values@.len(),
            canonical_all(values@),
            t@.len() == i,
            forall|j: int| 0 <= j < i ==> t@[j] == values@[j],
    {
        t.push(values[i]);
    }
    proof {
        assert(t@ =~= values@);
        lemma_exponent_fits(k as nat);
        lemma_pow2_pos(k as nat);
        lemma_inverse_root(val(omega), k as nat);
    }
    let inverse = fr_pow(&omega, (n - 1) as u64);
    let scale = fr_pow(&fr_two_inv(), k as u64);
    fr_fft(t.as_mut_slice(), inverse, k as u32);
    let ghost raw = vals(t@);
    let mut r: Vec<Fr> = Vec::with_capacity(n);
    for j in 0..n
        invariant
            n == t@.len(),
            canonical_all(t@),
            canonical(scale),
            r@.len() == j,
            canonical_all(r@),
            forall|q: int|
                0 <= q < j ==> val(#[trigger] r@[q]) == fmul(val(t@[q]), val(scale)),
    {
        assert(canonical(t@[j as int]));
        r.push(fr_mul(&t[j], &scale));
    }
    proof {
        assert(vals(t@) == dft(v, val(inverse)));
        assert(vals(r@) =~= interpolated(v, val(omega), k as nat)) by {
            assert forall|j: int| 0 <= j < n implies vals(r@)[j] == interpolated(
                v,
                val(omega),
                k as nat,
            )[j] by {
                assert(vals(t@)[j] == dft_at(v, val(inverse), j));
            }
        }
        assert forall|i: int| 0 <= i < v.len() implies 0 <= #[trigger] v[i] < modulus() by {
            assert(canonical(values@[i]));
        }
        law_interpolation(v, val(omega), k as nat);
    }
    r
}

} // verus!
