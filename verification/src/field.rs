//! The scalar field of BN254 (`halo2curves::bn256::Fr`), read as the integers modulo its
//! prime, and the field operations the library takes from `halo2curves`.

use halo2curves::bn256::Fr;
use halo2curves::ff::{Field, PrimeField, WithSmallOrderMulGroup};
use halo2curves::fft::best_fft;
use halo2curves::serde::SerdeObject;
use vstd::arithmetic::div_mod::*;
use vstd::arithmetic::power::*;
use vstd::arithmetic::power2::*;
use vstd::prelude::*;

use crate::sums::{lemma_sum_eq, lemma_sum_scale, lemma_sum_split, sum};

verus! {

/// `halo2curves::bn256::Fr`, carried through as an opaque value.
#[verifier::external_type_specification]
#[verifier::external_body]
pub struct ExFr(Fr);

/// Width in bytes of one field element, in either byte layout.
pub const FR_SZ: usize = 32;

/// The prime order of the field.
#[verifier::opaque]
pub open spec fn modulus() -> int {
    0x30644e72e131a029b85045b68181585d2833e84879b9709143e1f593f0000001int
}

pub proof fn lemma_modulus_bounds()
    ensures
        2 < modulus(),
        modulus() < pow2(254),
{
    reveal(modulus);
    lemma2_to64();
    lemma2_to64_rest();
    lemma_pow2_adds(62, 62);
    lemma_pow2_adds(124, 62);
    lemma_pow2_adds(186, 62);
    lemma_pow2_adds(248, 6);
    assert(pow2(254) == 0x4000000000000000000000000000000000000000000000000000000000000000int);
}

/// The integer that little-endian bytes spell.
pub open spec fn le_int(b: Seq<u8>) -> int
    decreases b.len(),
{
    if b.len() == 0 {
        0
    } else {
        b[0] as int + 256 * le_int(b.skip(1))
    }
}

/// What `PrimeField::to_repr` returns for an element: its integer in little-endian bytes.
pub uninterp spec fn fr_repr(x: Fr) -> Seq<u8>;

/// What `SerdeObject::to_raw_bytes` returns for an element: its bytes as they lie in memory.
pub uninterp spec fn fr_raw(x: Fr) -> Seq<u8>;

/// The integer a field element stands for.
pub open spec fn val(x: Fr) -> int {
    le_int(fr_repr(x))
}

/// An element in reduced form, as every field operation and every checked decoding leaves
/// it. Only an unchecked decoding of raw bytes can yield another.
pub open spec fn canonical(x: Fr) -> bool {
    &&& le_int(fr_raw(x)) < modulus()
    &&& 0 <= val(x) < modulus()
}

pub open spec fn canonical_all(s: Seq<Fr>) -> bool {
    forall|i: int| 0 <= i < s.len() ==> #[trigger] canonical(s[i])
}

/// The integers a sequence of elements stands for.
pub open spec fn vals(s: Seq<Fr>) -> Seq<int> {
    Seq::new(s.len(), |i: int| val(s[i]))
}

/// Addition, subtraction, multiplication and negation of the field, on integers.
#[verifier::opaque]
pub open spec fn fadd(a: int, b: int) -> int {
    (a + b) % modulus()
}

#[verifier::opaque]
pub open spec fn fsub(a: int, b: int) -> int {
    (a - b) % modulus()
}

#[verifier::opaque]
pub open spec fn fmul(a: int, b: int) -> int {
    (a * b) % modulus()
}

#[verifier::opaque]
pub open spec fn fneg(a: int) -> int {
    (-a) % modulus()
}

/// The `e`-th power in the field.
#[verifier::opaque]
pub open spec fn fpow(a: int, e: nat) -> int {
    pow(a, e) % modulus()
}

pub proof fn lemma_field_ranges()
    ensures
        forall|a: int, b: int| 0 <= #[trigger] fadd(a, b) < modulus(),
        forall|a: int, b: int| 0 <= #[trigger] fsub(a, b) < modulus(),
        forall|a: int, b: int| 0 <= #[trigger] fmul(a, b) < modulus(),
        forall|a: int| 0 <= #[trigger] fneg(a) < modulus(),
        forall|a: int, e: nat| 0 <= #[trigger] fpow(a, e) < modulus(),
{
    lemma_modulus_bounds();
    reveal(fadd);
    reveal(fsub);
    reveal(fmul);
    reveal(fneg);
    reveal(fpow);
}

/// `Sum_j x[j] * w^(i * j)`, the `i`-th value of the transform of `x` at the powers of `w`.
#[verifier::opaque]
pub open spec fn dft_at(x: Seq<int>, w: int, i: int) -> int {
    sum(|j: int| x[j] * pow(w, (i * j) as nat), x.len()) % modulus()
}

/// The transform of `x` at the powers of `w`.
pub open spec fn dft(x: Seq<int>, w: int) -> Seq<int> {
    Seq::new(x.len(), |i: int| dft_at(x, w, i))
}

/// `w` is a primitive `n`-th root of unity, `n` a power of two: its `n/2`-th power is `-1`.
pub open spec fn primitive_root(w: int, n: int) -> bool {
    n > 1 ==> fpow(w, (n / 2) as nat) == modulus() - 1
}

/// Byte strings of one length that spell the same integer are equal.
pub proof fn lemma_le_int_injective(a: Seq<u8>, b: Seq<u8>)
    requires
        a.len() == b.len(),
        le_int(a) == le_int(b),
    ensures
        a == b,
    decreases a.len(),
{
    if a.len() > 0 {
        lemma_le_int_injective(a.skip(1), b.skip(1));
        assert(a[0] == b[0]);
        assert forall|i: int| 0 <= i < a.len() implies a[i] == b[i] by {
            if i > 0 {
                assert(a.skip(1)[i - 1] == b.skip(1)[i - 1]);
            }
        }
    }
    assert(a =~= b);
}

pub proof fn lemma_le_int_range(b: Seq<u8>)
    ensures
        0 <= le_int(b) < pow2(8 * b.len()),
    decreases b.len(),
{
    lemma2_to64();
    if b.len() > 0 {
        lemma_le_int_range(b.skip(1));
        lemma_pow2_adds(8, (8 * (b.len() - 1)) as nat);
    }
}

/// Little-endian bytes spell `Sum_i b[i] * 256^i`.
pub proof fn law_bytes_spell(b: Seq<u8>)
    ensures
        le_int(b) == sum(|i: int| b[i] as int * pow2((8 * i) as nat), b.len()),
    decreases b.len(),
{
    lemma2_to64();
    if b.len() > 0 {
        let rest = b.skip(1);
        let k = rest.len();
        let f = |i: int| b[i] as int * pow2((8 * i) as nat);
        let g = |i: int| rest[i] as int * pow2((8 * i) as nat);
        law_bytes_spell(rest);
        lemma_sum_split(f, 1, k);
        assert(sum(f, 1) == sum(f, 0) + f(0));
        vstd::arithmetic::mul::lemma_mul_basics(b[0] as int);
        assert(f(0) == b[0] as int * pow2(0));
        assert(b.len() == 1 + k);
        let up = |i: int| f(1 + i);
        let scaled = |i: int| 256 * g(i);
        assert forall|i: int| 0 <= i < k implies #[trigger] up(i) == scaled(i) by {
            lemma_pow2_adds(8, (8 * i) as nat);
            assert((8 * (1 + i)) as nat == 8 + (8 * i) as nat);
            assert(rest[i] == b[1 + i]);
            let p = pow2((8 * i) as nat) as int;
            assert(b[1 + i] as int * (256 * p) == 256 * (b[1 + i] as int * p)) by (nonlinear_arith);
        }
        lemma_sum_eq(up, scaled, k);
        lemma_sum_scale(g, 256, k);
    }
}

/// The first `n` bytes spell the integer's lowest `8 * n` bits.
pub proof fn lemma_le_int_low(b: Seq<u8>, n: nat)
    requires
        n <= b.len(),
    ensures
        le_int(b.take(n as int)) == le_int(b) % pow2(8 * n) as int,
    decreases n,
{
    lemma2_to64();
    lemma_le_int_range(b);
    if n == 0 {
        assert(le_int(b) % 1 == 0);
    } else {
        let k = (n - 1) as nat;
        let p = pow2(8 * k) as int;
        let rest = le_int(b.skip(1));
        lemma_le_int_low(b.skip(1), k);
        lemma_le_int_range(b.skip(1));
        assert(b.take(n as int).skip(1) =~= b.skip(1).take(k as int));
        lemma_pow2_adds(8, 8 * k);
        lemma_pow2_pos(8 * k);
        lemma_mod_breakdown(le_int(b), 256, p);
        assert(le_int(b) / 256 == rest);
        assert(le_int(b) % 256 == b[0] as int);
    }
}

/// `Field::ZERO`: the element 0, whose limbs are all zero.
#[verifier::external_body]
pub(crate) fn fr_zero() -> (r: Fr)
    ensures
        canonical(r),
        val(r) == 0,
        fr_raw(r) == Seq::new(FR_SZ as nat, |i: int| 0u8),
{
    Fr::ZERO
}

/// `Field::ONE`: the element 1.
#[verifier::external_body]
pub(crate) fn fr_one() -> (r: Fr)
    ensures
        canonical(r),
        val(r) == 1,
{
    Fr::ONE
}

/// `From<u64>`: the element of an integer below the modulus.
#[verifier::external_body]
pub(crate) fn fr_from_u64(v: u64) -> (r: Fr)
    ensures
        canonical(r),
        val(r) == v,
{
    Fr::from(v)
}

/// `WithSmallOrderMulGroup::ZETA`: the field's cube root of unity.
#[verifier::external_body]
pub(crate) fn fr_zeta() -> (r: Fr)
    ensures
        canonical(r),
        val(r) == 0x30644e72e131a029048b6e193fd84104cc37a73fec2bc5e9b8ca0b2d36636f23int,
{
    Fr::ZETA
}

/// `PrimeField::DELTA`: the multiplicative generator 7 raised to `2^28`.
#[verifier::external_body]
pub(crate) fn fr_delta() -> (r: Fr)
    ensures
        canonical(r),
        val(r) == fpow(7, pow2(28)),
{
    Fr::DELTA
}

/// The inverse of 2 in the field.
pub open spec fn two_inv() -> int {
    (modulus() + 1) / 2
}

/// `PrimeField::TWO_INV`: the inverse of 2.
#[verifier::external_body]
pub(crate) fn fr_two_inv() -> (r: Fr)
    ensures
        canonical(r),
        val(r) == two_inv(),
{
    Fr::TWO_INV
}

/// The multiplicative generator 7 raised to the odd part of the order of the group.
pub open spec fn root_of_unity() -> int {
    fpow(7, ((modulus() - 1) / pow2(28) as int) as nat)
}

/// `PrimeField::ROOT_OF_UNITY`: that power of the generator, a primitive root of unity of
/// order `2^28`.
#[verifier::external_body]
pub(crate) fn fr_root_of_unity() -> (r: Fr)
    ensures
        canonical(r),
        val(r) == root_of_unity(),
        primitive_root(val(r), pow2(28) as int),
{
    Fr::ROOT_OF_UNITY
}

/// `PrimeField::NUM_BITS`: the bit length of the modulus.
#[verifier::external_body]
pub(crate) fn fr_num_bits() -> (r: u32)
    ensures
        r == 254,
{
    Fr::NUM_BITS
}

/// `Fr + Fr`: addition modulo the prime.
#[verifier::external_body]
pub(crate) fn fr_add(a: &Fr, b: &Fr) -> (r: Fr)
    requires
        canonical(*a),
        canonical(*b),
    ensures
        canonical(r),
        val(r) == fadd(val(*a), val(*b)),
{
    *a + *b
}

/// `Fr - Fr`: subtraction modulo the prime.
#[verifier::external_body]
pub(crate) fn fr_sub(a: &Fr, b: &Fr) -> (r: Fr)
    requires
        canonical(*a),
        canonical(*b),
    ensures
        canonical(r),
        val(r) == fsub(val(*a), val(*b)),
{
    *a - *b
}

/// `Fr * Fr`: multiplication modulo the prime.
#[verifier::external_body]
pub(crate) fn fr_mul(a: &Fr, b: &Fr) -> (r: Fr)
    requires
        canonical(*a),
        canonical(*b),
    ensures
        canonical(r),
        val(r) == fmul(val(*a), val(*b)),
{
    *a * *b
}

/// `-Fr`: negation modulo the prime.
#[verifier::external_body]
pub(crate) fn fr_neg(a: &Fr) -> (r: Fr)
    requires
        canonical(*a),
    ensures
        canonical(r),
        val(r) == fneg(val(*a)),
{
    -*a
}

/// `Field::square`: the product of an element with itself.
#[verifier::external_body]
pub(crate) fn fr_square(a: &Fr) -> (r: Fr)
    requires
        canonical(*a),
    ensures
        canonical(r),
        val(r) == fmul(val(*a), val(*a)),
{
    Field::square(a)
}

/// `Field::double`: the sum of an element with itself.
#[verifier::external_body]
pub(crate) fn fr_double(a: &Fr) -> (r: Fr)
    requires
        canonical(*a),
    ensures
        canonical(r),
        val(r) == fadd(val(*a), val(*a)),
{
    Field::double(a)
}

/// `Field::pow_vartime` with a one-limb exponent: the `e`-th power.
#[verifier::external_body]
pub(crate) fn fr_pow(a: &Fr, e: u64) -> (r: Fr)
    requires
        canonical(*a),
    ensures
        canonical(r),
        val(r) == fpow(val(*a), e as nat),
{
    a.pow_vartime([e])
}

/// `PartialEq` of `Fr`, which compares the limbs: two reduced elements are equal exactly
/// when they stand for the same integer.
#[verifier::external_body]
pub(crate) fn fr_eq(a: &Fr, b: &Fr) -> (r: bool)
    ensures
        r == (*a == *b),
        canonical(*a) && canonical(*b) ==> r == (val(*a) == val(*b)),
{
    a == b
}

/// `PrimeField::to_repr`: 32 little-endian bytes that spell an integer below the modulus.
#[verifier::external_body]
pub(crate) fn fr_to_repr(a: &Fr) -> (r: Vec<u8>)
    ensures
        r@ == fr_repr(*a),
        r@.len() == FR_SZ,
        le_int(r@) < modulus(),
{
    a.to_repr().as_ref().to_vec()
}

/// `PrimeField::from_repr`: the reduced element that 32 little-endian bytes spell, when
/// they spell an integer below the modulus, and nothing otherwise.
#[verifier::external_body]
pub(crate) fn fr_parse_repr(b: &[u8]) -> (r: Option<Fr>)
    requires
        b@.len() == FR_SZ,
    ensures
        r is Some <==> le_int(b@) < modulus(),
        r is Some ==> canonical(r->0) && fr_repr(r->0) == b@,
        forall|x: Fr| canonical(x) && #[trigger] fr_repr(x) == b@ ==> r == Some(x),
{
    Option::from(Fr::from_repr(b.into()))
}

/// `SerdeObject::to_raw_bytes`: the 32 bytes of an element as it lies in memory. Reduced
/// elements that stand for the same integer lie in memory as the same bytes.
#[verifier::external_body]
pub(crate) fn fr_to_raw(a: &Fr) -> (r: Vec<u8>)
    ensures
        r@ == fr_raw(*a),
        r@.len() == FR_SZ,
        forall|x: Fr|
            canonical(x) && canonical(*a) && val(x) == val(*a) ==> #[trigger] fr_raw(x) == r@,
{
    a.to_raw_bytes()
}

/// `SerdeObject::from_raw_bytes_unchecked`: the element whose bytes in memory these are.
#[verifier::external_body]
pub(crate) fn fr_parse_raw(b: &[u8]) -> (r: Fr)
    requires
        b@.len() == FR_SZ,
    ensures
        fr_raw(r) == b@,
        forall|x: Fr| #[trigger] fr_raw(x) == b@ ==> r == x,
{
    Fr::from_raw_bytes_unchecked(b)
}

/// `SerdeObject::from_raw_bytes`: accepts 32 raw bytes exactly when they are reduced.
#[verifier::external_body]
pub(crate) fn fr_parse_raw_checked(b: &[u8]) -> (r: Option<Fr>)
    requires
        b@.len() == FR_SZ,
    ensures
        r is Some <==> le_int(b@) < modulus(),
        r is Some ==> fr_raw(r->0) == b@,
{
    Fr::from_raw_bytes(b)
}

/// `halo2curves::fft::best_fft`: the values of the polynomial with coefficients `a` at the
/// powers of `omega`, an element of multiplicative order `a.len()`.
#[verifier::external_body]
pub(crate) fn fr_fft(a: &mut [Fr], omega: Fr, log_n: u32)
    requires
        old(a)@.len() == pow2(log_n as nat),
        canonical_all(old(a)@),
        canonical(omega),
        primitive_root(val(omega), old(a)@.len() as int),
    ensures
        final(a)@.len() == old(a)@.len(),
        canonical_all(final(a)@),
        vals(final(a)@) == dft(vals(old(a)@), val(omega)),
{
    best_fft(a, omega, log_n)
}

/// Whether an element is in reduced form.
pub fn is_canonical(x: &Fr) -> (r: bool)
    ensures
        r == canonical(*x),
{
    let raw = fr_to_raw(x);
    let repr = fr_to_repr(x);
    proof {
        lemma_le_int_range(repr@);
    }
    fr_parse_raw_checked(raw.as_slice()).is_some()
}

/// Whether every element of a slice is in reduced form.
pub fn all_canonical(xs: &[Fr]) -> (r: bool)
    ensures
        r == canonical_all(xs@),
{
    for i in 0..xs.len()
        invariant
            forall|j: int| 0 <= j < i ==> #[trigger] canonical(xs@[j]),
    {
        if !is_canonical(&xs[i]) {
            assert(!canonical(xs@[i as int]));
            return false;
        }
    }
    true
}

/// Whether `omega` is a primitive `2^log_n`-th root of unity.
pub fn is_primitive_root(omega: &Fr, log_n: u32) -> (r: bool)
    requires
        canonical(*omega),
        log_n <= 64,
    ensures
        r == primitive_root(val(*omega), pow2(log_n as nat) as int),
        r == (log_n == 0 || fpow(val(*omega), pow2((log_n - 1) as nat)) == modulus() - 1),
{
    if log_n == 0 {
        proof {
            lemma2_to64();
        }
        return true;
    }
    let half: u64 = 1u64 << (log_n - 1);
    let zero = fr_zero();
    let one = fr_one();
    let power = fr_pow(omega, half);
    proof {
        lemma_modulus_bounds();
        lemma_pow2_pos(log_n as nat);
        lemma_pow2_unfold(log_n as nat);
        lemma2_to64_rest();
        if log_n < 64 {
            lemma_pow2_strictly_increases((log_n - 1) as nat, 63);
        }
        vstd::bits::lemma_u64_shl_is_mul(1, (log_n - 1) as u64);
        reveal(fsub);
        lemma_mod_add_multiples_vanish(-1, modulus());
        lemma_small_mod((modulus() - 1) as nat, modulus() as nat);
    }
    let minus_one = fr_sub(&zero, &one);
    fr_eq(&power, &minus_one)
}

} // verus!
