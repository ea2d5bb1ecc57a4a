//! Finite sums of integers, the language in which transforms and multi-scalar
//! multiplications are specified.

use vstd::prelude::*;
use vstd::arithmetic::div_mod::*;
use vstd::arithmetic::mul::*;

verus! {

/// `f(0) + f(1) + ... + f(n - 1)`.
pub open spec fn sum(f: spec_fn(int) -> int, n: nat) -> int
    decreases n,
{
    if n == 0 {
        0
    } else {
        sum(f, (n - 1) as nat) + f(n - 1)
    }
}

/// `f(from) * ... * f(to - 1)`.
pub open spec fn product(f: spec_fn(int) -> int, from: int, to: int) -> int
    decreases to - from,
{
    if to <= from {
        1
    } else {
        product(f, from, to - 1) * f(to - 1)
    }
}

/// A sum grows by its next term and a product by its next factor; without terms they are zero
/// and one.
pub proof fn law_next_term(f: spec_fn(int) -> int, n: nat, from: int, to: int)
    requires
        from <= to,
    ensures
        sum(f, 0) == 0,
        sum(f, n + 1) == sum(f, n) + f(n as int),
        product(f, from, from) == 1,
        product(f, from, to + 1) == product(f, from, to) * f(to),
{
}

/// Two sums whose terms agree are equal.
pub proof fn lemma_sum_eq(f: spec_fn(int) -> int, g: spec_fn(int) -> int, n: nat)
    requires
        forall|i: int| 0 <= i < n ==> #[trigger] f(i) == g(i),
    ensures
        sum(f, n) == sum(g, n),
    decreases n,
{
    if n > 0 {
        lemma_sum_eq(f, g, (n - 1) as nat);
        assert(f(n - 1) == g(n - 1));
    }
}

/// Two sums whose terms agree modulo `m` agree modulo `m`.
pub proof fn lemma_sum_congruent(f: spec_fn(int) -> int, g: spec_fn(int) -> int, n: nat, m: int)
    requires
        m > 0,
        forall|i: int| 0 <= i < n ==> (#[trigger] f(i)) % m == g(i) % m,
    ensures
        sum(f, n) % m == sum(g, n) % m,
    decreases n,
{
    if n > 0 {
        let k = (n - 1) as nat;
        lemma_sum_congruent(f, g, k, m);
        assert(f(n - 1) % m == g(n - 1) % m);
        lemma_add_mod_noop(sum(f, k), f(n - 1), m);
        lemma_add_mod_noop(sum(g, k), g(n - 1), m);
    }
}

/// Sums add term by term.
pub proof fn lemma_sum_add(f: spec_fn(int) -> int, g: spec_fn(int) -> int, n: nat)
    ensures
        sum(|i: int| f(i) + g(i), n) == sum(f, n) + sum(g, n),
    decreases n,
{
    if n > 0 {
        lemma_sum_add(f, g, (n - 1) as nat);
    }
}

/// A common factor leaves the sum.
pub proof fn lemma_sum_scale(f: spec_fn(int) -> int, c: int, n: nat)
    ensures
        sum(|i: int| c * f(i), n) == c * sum(f, n),
    decreases n,
{
    if n > 0 {
        lemma_sum_scale(f, c, (n - 1) as nat);
        lemma_mul_is_distributive_add(c, sum(f, (n - 1) as nat), f(n - 1));
    }
}

/// A sum of zeros is zero.
pub proof fn lemma_sum_zero(f: spec_fn(int) -> int, n: nat)
    requires
        forall|i: int| 0 <= i < n ==> #[trigger] f(i) == 0,
    ensures
        sum(f, n) == 0,
    decreases n,
{
    if n > 0 {
        lemma_sum_zero(f, (n - 1) as nat);
        assert(f(n - 1) == 0);
    }
}

/// A sum splits at any point.
pub proof fn lemma_sum_split(f: spec_fn(int) -> int, a: nat, b: nat)
    ensures
        sum(f, a + b) == sum(f, a) + sum(|i: int| f(a + i), b),
    decreases b,
{
    if b > 0 {
        lemma_sum_split(f, a, (b - 1) as nat);
        assert(a + b - 1 == a + (b - 1));
        assert(((a + b) - 1) as nat == a + (b - 1) as nat);
    }
}

/// The order of a double sum does not matter.
pub proof fn lemma_sum_swap(f: spec_fn(int, int) -> int, a: nat, b: nat)
    ensures
        sum(|i: int| sum(|j: int| f(i, j), b), a) == sum(|j: int| sum(|i: int| f(i, j), a), b),
    decreases a,
{
    let lhs = |i: int| sum(|j: int| f(i, j), b);
    let rhs = |j: int| sum(|i: int| f(i, j), a);
    if a == 0 {
        lemma_sum_zero(rhs, b);
    } else {
        let a1 = (a - 1) as nat;
        let rhs1 = |j: int| sum(|i: int| f(i, j), a1);
        let last = |j: int| f(a - 1, j);
        lemma_sum_swap(f, a1, b);
        lemma_sum_add(rhs1, last, b);
        lemma_sum_eq(rhs, |j: int| rhs1(j) + last(j), b);
        assert(lhs(a - 1) == sum(last, b));
    }
}

/// A sum over `a * b` indices is a double sum over `i + a * j`.
pub proof fn lemma_sum_grid(f: spec_fn(int) -> int, a: nat, b: nat)
    ensures
        sum(f, a * b) == sum(|j: int| sum(|i: int| f(i + a * j), a), b),
    decreases b,
{
    let outer = |j: int| sum(|i: int| f(i + a * j), a);
    if b == 0 {
        lemma_mul_by_zero_is_zero(a as int);
    } else {
        let b1 = (b - 1) as nat;
        lemma_sum_grid(f, a, b1);
        lemma_mul_is_distributive_add(a as int, b1 as int, 1);
        assert(a * b == a * b1 + a);
        lemma_sum_split(f, a * b1, a);
        lemma_sum_eq(|i: int| f(a * b1 + i), |i: int| f(i + a * b1), a);
        assert(outer(b - 1) == sum(|i: int| f(i + a * b1), a));
    }
}

} // verus!
