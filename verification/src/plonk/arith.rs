//! Identities of the field, on integers.

use vstd::arithmetic::div_mod::*;
use vstd::arithmetic::mul::*;
use vstd::prelude::*;

use crate::field::{fadd, fmul, fneg, fsub, lemma_modulus_bounds, modulus};
use crate::plonk::circuit::elem;

verus! {

/// Sums and products do not depend on the order; 0 and 1 are neutral; a difference is the sum
/// with a negation; a double is twice.
pub proof fn lemma_identities(a: int, b: int)
    requires
        elem(a),
        elem(b),
    ensures
        fadd(a, b) == fadd(b, a),
        fmul(a, b) == fmul(b, a),
        fadd(0, a) == a,
        fadd(a, 0) == a,
        fadd(a, fneg(b)) == fsub(a, b),
        fsub(a, 0) == a,
        fsub(0, a) == fneg(a),
        fadd(0, fneg(a)) == fneg(a),
        fneg(0) == 0,
        fadd(a, fneg(0)) == a,
        fmul(0, a) == 0,
        fmul(a, 0) == 0,
        fmul(1, a) == a,
        fmul(a, 1) == a,
        fmul(2, a) == fadd(a, a),
        fmul(a, 2) == fadd(a, a),
{
    reveal(fadd);
    reveal(fsub);
    reveal(fmul);
    reveal(fneg);
    lemma_modulus_bounds();
    let m = modulus();
    lemma_small_mod(a as nat, m as nat);
    lemma_small_mod(0, m as nat);
    lemma_mul_is_commutative(a, b);
    lemma_mul_basics(a);
    lemma_add_mod_noop_right(a, -b, m);
    lemma_mod_twice(-a, m);
}

/// Operations of the field on numbers that differ by multiples of the prime.
pub proof fn lemma_congruent_ops(a: int, b: int, x: int, y: int)
    requires
        a % modulus() == x % modulus(),
        b % modulus() == y % modulus(),
    ensures
        fadd(a, b) == (x + y) % modulus(),
        fsub(a, b) == (x - y) % modulus(),
        fmul(a, b) == (x * y) % modulus(),
        fadd(a, b) % modulus() == (x + y) % modulus(),
        fsub(a, b) % modulus() == (x - y) % modulus(),
        fmul(a, b) % modulus() == (x * y) % modulus(),
{
    let m = modulus();
    reveal(fadd);
    reveal(fsub);
    reveal(fmul);
    lemma_modulus_bounds();
    lemma_add_mod_noop(a, b, m);
    lemma_add_mod_noop(x, y, m);
    lemma_sub_mod_noop(a, b, m);
    lemma_sub_mod_noop(x, y, m);
    lemma_mul_mod_noop_general(a, b, m);
    lemma_mul_mod_noop_general(x, y, m);
    lemma_mod_twice(x + y, m);
    lemma_mod_twice(x - y, m);
    lemma_mod_twice(x * y, m);
}

} // verus!
