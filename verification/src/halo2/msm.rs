//! Multi-scalar multiplication over the BN254 curve of `halo2curves`.
//!
//! The scalars stay in memory and only the bases, the powers of tau, stream past. The result
//! is the group element that `halo2curves`' own multi-scalar multiplication gives.

use halo2curves::bn256::{Fr, G1Affine, G1};
use halo2curves::msm::msm_best;
use halo2curves::serde::SerdeObject;
use vstd::arithmetic::div_mod::*;
use vstd::arithmetic::mul::*;
use vstd::arithmetic::power2::*;
use vstd::prelude::*;

use crate::field::{
    fr_num_bits, fr_repr, fr_to_repr, le_int, lemma_le_int_range, lemma_modulus_bounds, modulus,
    val, vals,
};
use crate::pippenger::{
    base_log, base_logs, bases_ok, digit_of, inner_product, is_multiple, law_blocks_add,
    lemma_digit_step, pippenger, scalars_fit, values, Accumulator, Digits, Group,
};
use crate::powers::{lemma_word_bit, two_to};
use crate::sums::{lemma_sum_eq, sum};

verus! {

/// `halo2curves::bn256::G1`, a point of the curve in projective form.
#[verifier::external_type_specification]
#[verifier::external_body]
pub struct ExG1(G1);

/// `halo2curves::bn256::G1Affine`, a point of the curve in affine form.
#[verifier::external_type_specification]
#[verifier::external_body]
pub struct ExG1Affine(G1Affine);

/// What `==` says of `p` and `k` times the generator, for a `p` in the form in which the
/// operations of `G1` leave their results: coordinates reduced, and `x = 0`, `y != 0` where
/// `z = 0`.
pub uninterp spec fn g1_is(p: G1, k: int) -> bool;

/// What `to_affine` returns for `k` times the generator.
pub uninterp spec fn g1_multiple(k: int) -> G1Affine;

/// The base is `k` times the generator.
pub open spec fn g1_affine_is(p: G1Affine, k: int) -> bool {
    p == g1_multiple(k)
}

/// What `SerdeObject::to_raw_bytes` returns for a base: its coordinates as they lie in memory.
pub uninterp spec fn g1_affine_raw(p: G1Affine) -> Seq<u8>;

/// `Group::identity` of `G1`: zero times the generator.
#[verifier::external_body]
fn g1_identity() -> (r: G1)
    ensures
        g1_is(r, 0),
{
    <G1 as halo2curves::group::Group>::identity()
}

/// `Group::double` of `G1`: twice the multiple.
#[verifier::external_body]
fn g1_double(p: &G1) -> (r: G1)
    ensures
        forall|k: int| #[trigger] g1_is(*p, k) ==> g1_is(r, 2 * k),
{
    halo2curves::group::Group::double(p)
}

/// `G1 + G1`: the sum of the multiples.
#[verifier::external_body]
fn g1_add(p: &G1, q: &G1) -> (r: G1)
    ensures
        forall|j: int, k: int|
            #[trigger] g1_is(*p, j) && #[trigger] g1_is(*q, k) ==> g1_is(r, j + k),
{
    *p + *q
}

/// `G1 + G1Affine`: the sum of the multiples.
#[verifier::external_body]
fn g1_add_affine(p: &G1, q: &G1Affine) -> (r: G1)
    ensures
        forall|j: int, k: int|
            #[trigger] g1_is(*p, j) && #[trigger] g1_affine_is(*q, k) ==> g1_is(r, j + k),
{
    *p + *q
}

impl Group for G1 {
    type Base = G1Affine;

    open spec fn wf(self) -> bool {
        true
    }

    open spec fn base_wf(b: G1Affine) -> bool {
        true
    }

    open spec fn is(self, k: int) -> bool {
        g1_is(self, k)
    }

    open spec fn base_is(b: G1Affine, k: int) -> bool {
        g1_affine_is(b, k)
    }

    fn identity() -> (r: G1) {
        g1_identity()
    }

    fn double(&self) -> (r: G1) {
        g1_double(self)
    }

    fn plus(&self, other: &G1) -> (r: G1) {
        g1_add(self, other)
    }

    fn plus_base(&self, base: &G1Affine) -> (r: G1) {
        g1_add_affine(self, base)
    }
}

/// A bit of the integer that bytes spell is a bit of one byte, or zero past the last.
proof fn lemma_bit_of_bytes(b: Seq<u8>, bit: nat)
    ensures
        (le_int(b) / pow2(bit) as int) % 2 == (if bit / 8 < b.len() {
            (b[(bit / 8) as int] as int / pow2(bit % 8) as int) % 2
        } else {
            0
        }),
    decreases b.len(),
{
    lemma2_to64();
    lemma_pow2_pos(bit);
    if b.len() == 0 {
        lemma_div_basics(pow2(bit) as int);
    } else {
        let rest = le_int(b.skip(1));
        lemma_le_int_range(b.skip(1));
        let low = b[0] as int;
        if bit < 8 {
            let p = pow2(bit) as int;
            let q = pow2((8 - bit) as nat) as int;
            lemma_pow2_adds(bit, (8 - bit) as nat);
            lemma_pow2_unfold((8 - bit) as nat);
            let h = pow2((7 - bit) as nat) as int;
            assert(256 * rest == p * (q * rest)) by (nonlinear_arith)
                requires
                    p * q == 256,
            ;
            lemma_div_multiples_vanish_fancy_sum(low, q * rest, p);
            assert((p * (q * rest) + low) / p == q * rest + low / p);
            assert(q * rest == 2 * (h * rest)) by (nonlinear_arith)
                requires
                    q == 2 * h,
            ;
            lemma_mod_multiples_vanish(h * rest, low / p, 2);
        } else {
            lemma_pow2_adds(8, (bit - 8) as nat);
            lemma_pow2_pos((bit - 8) as nat);
            lemma_div_denominator(le_int(b), 256, pow2((bit - 8) as nat) as int);
            assert(le_int(b) / 256 == rest);
            lemma_bit_of_bytes(b.skip(1), (bit - 8) as nat);
        }
    }
}

proof fn lemma_div_multiples_vanish_fancy_sum(x: int, m: int, d: int)
    requires
        d > 0,
    ensures
        (d * m + x) / d == m + x / d,
{
    lemma_hoist_over_denominator(x, m, d as nat);
    lemma_mul_is_commutative(m, d);
}

/// The `c`-bit digit, at window `w`, of a scalar given as little-endian bytes.
pub fn digit(repr: &[u8], w: usize, c: usize) -> (r: usize)
    requires
        c <= usize::BITS,
        (w + 1) * c <= usize::MAX + 1,
    ensures
        r == digit_of(le_int(repr@), w as nat, c as nat),
{
    proof {
        lemma_mul_is_distributive_add_other_way(c as int, w as int, 1);
        lemma_mul_basics(w as int);
        lemma_le_int_range(repr@);
        lemma2_to64();
    }
    let start: usize = w * c;
    let n = repr.len();
    let mut d: usize = 0;
    let ghost v = le_int(repr@);
    assert((v / pow2(start as nat) as int) % 1 == 0);
    for i in 0..c
        invariant
            c <= usize::BITS,
            start + c <= usize::MAX + 1,
            n == repr@.len(),
            v == le_int(repr@),
            0 <= v,
            d == (v / pow2(start as nat) as int) % pow2(i as nat) as int,
    {
        let bit: usize = start + i;
        let byte: usize = bit / 8;
        proof {
            lemma_digit_step(v, start as nat, i as nat);
            lemma_bit_of_bytes(repr@, bit as nat);
            lemma_word_bit(i as nat);
            lemma_mul_basics(pow2(i as nat) as int);
        }
        if byte < n {
            let x: u8 = repr[byte];
            let s: u8 = (bit % 8) as u8;
            let y: u8 = x >> s;
            proof {
                vstd::bits::lemma_u8_shr_is_div(x, s);
                assert(y & 1 == y % 2) by (bit_vector);
            }
            if y & 1 == 1 {
                d = d + two_to(i);
            }
        }
    }
    d
}

/// A scalar as the little-endian bytes of its integer.
pub struct Repr {
    bytes: Vec<u8>,
}

impl Repr {
    /// The bytes.
    pub closed spec fn view(&self) -> Seq<u8> {
        self.bytes@
    }

    /// The bytes of a scalar.
    pub fn of(x: &Fr) -> (r: Self)
        ensures
            r@ == fr_repr(*x),
            0 <= val(*x) < modulus(),
    {
        let bytes = fr_to_repr(x);
        proof {
            lemma_le_int_range(bytes@);
        }
        Repr { bytes }
    }
}

impl Digits for Repr {
    open spec fn value(&self) -> int {
        le_int(self@)
    }

    fn digit(&self, w: usize, c: usize) -> (r: usize) {
        digit(self.bytes.as_slice(), w, c)
    }
}

/// The bytes of every scalar.
pub fn reprs(scalars: &[Fr]) -> (r: Vec<Repr>)
    ensures
        values(r@) == vals(scalars@),
        scalars_fit(r@, 254),
{
    let mut r: Vec<Repr> = Vec::with_capacity(scalars.len());
    for i in 0..scalars.len()
        invariant
            r@.len() == i,
            forall|j: int| 0 <= j < i ==> (#[trigger] r@[j]).value() == val(scalars@[j]),
            forall|j: int| 0 <= j < i ==> 0 <= (#[trigger] r@[j]).value() < pow2(254),
    {
        proof {
            lemma_modulus_bounds();
        }
        r.push(Repr::of(&scalars[i]));
    }
    assert(values(r@) =~= vals(scalars@));
    r
}

/// `Sum_i scalars[i] * bases[i]`, as a multiple of the generator.
pub open spec fn msm_log(bases: Seq<G1Affine>, scalars: Seq<Fr>) -> int {
    inner_product(vals(scalars), base_logs::<G1>(bases))
}

/// A multi-scalar product of bases that are multiples of the generator is the sum of the bases'
/// multiples, each times the integer of its own scalar; every base counts.
pub proof fn law_product_is_sum(bases: Seq<G1Affine>, scalars: Seq<Fr>, r: G1) -> (k: Seq<int>)
    requires
        bases.len() == scalars.len(),
        forall|i: int| 0 <= i < bases.len() ==> exists|k: int| #[trigger] bases[i] == g1_multiple(k),
        bases_ok::<G1>(bases) ==> g1_is(r, msm_log(bases, scalars)),
    ensures
        k.len() == bases.len(),
        forall|i: int| 0 <= i < k.len() ==> bases[i] == g1_multiple(#[trigger] k[i]),
        g1_is(r, sum(|i: int| val(scalars[i]) * k[i], bases.len())),
{
    let k = base_logs::<G1>(bases);
    let v = vals(scalars);
    assert forall|i: int| 0 <= i < bases.len() implies is_multiple::<G1>(#[trigger] bases[i])
        && bases[i] == g1_multiple(k[i]) by {
        let j = choose|j: int| bases[i] == g1_multiple(j);
        assert(G1::base_is(bases[i], j));
        assert(G1::base_is(bases[i], base_log::<G1>(bases[i])));
    }
    assert(bases_ok::<G1>(bases));
    lemma_sum_eq(|i: int| v[i] * k[i], |i: int| val(scalars[i]) * k[i], bases.len());
    k
}

/// The base is a multiple of the generator other than the identity.
pub open spec fn proper(b: G1Affine) -> bool {
    exists|k: int| g1_affine_is(b, k) && k % modulus() != 0
}

pub open spec fn all_proper(bases: Seq<G1Affine>) -> bool {
    forall|i: int| 0 <= i < bases.len() ==> proper(#[trigger] bases[i])
}

/// The most bases for which `msm_best` adds in projective form; past it, sums are batched in
/// affine form, which takes the bases to be proper.
pub const PROJECTIVE_MAX: usize = 8103;

/// `halo2curves::msm::msm_best`: the sum of the bases, each times its scalar.
#[verifier::external_body]
fn g1_msm_best(scalars: &[Fr], bases: &[G1Affine]) -> (r: G1)
    requires
        scalars@.len() == bases@.len(),
        bases@.len() <= u32::MAX,
        bases@.len() <= PROJECTIVE_MAX || all_proper(bases@),
    ensures
        bases_ok::<G1>(bases@) ==> g1_is(r, msm_log(bases@, scalars@)),
{
    msm_best(scalars, bases)
}

/// In-core reference: `halo2curves`' own multi-scalar multiplication.
pub fn msm_incore(bases: &[G1Affine], scalars: &[Fr]) -> (r: G1)
    requires
        scalars@.len() == bases@.len(),
        bases@.len() <= u32::MAX,
        bases@.len() <= PROJECTIVE_MAX || all_proper(bases@),
    ensures
        bases_ok::<G1>(bases@) ==> g1_is(r, msm_log(bases@, scalars@)),
{
    g1_msm_best(scalars, bases)
}

/// In-core bucketed Pippenger: the streaming structure with the bases in memory.
pub fn msm_pippenger(bases: &[G1Affine], scalars: &[Fr]) -> (r: G1)
    requires
        scalars@.len() == bases@.len(),
    ensures
        bases_ok::<G1>(bases@) ==> g1_is(r, msm_log(bases@, scalars@)),
{
    let digits = reprs(scalars);
    let nbits: usize = fr_num_bits() as usize;
    assert(digits@.len() == values(digits@).len());
    assert(scalars@.len() == vals(scalars@).len());
    pippenger::<G1, Repr>(bases, digits.as_slice(), nbits)
}

/// `PrimeCurveAffine::generator` of `G1Affine`: one times the generator.
#[verifier::external_body]
fn g1_generator() -> (r: G1Affine)
    ensures
        r == g1_multiple(1),
{
    <G1Affine as halo2curves::group::prime::PrimeCurveAffine>::generator()
}

/// `SerdeObject::to_raw_bytes` of a base: two coordinates of 32 bytes each.
#[verifier::external_body]
fn g1_affine_to_raw(p: &G1Affine) -> (r: Vec<u8>)
    ensures
        r@ == g1_affine_raw(*p),
        r@.len() == BASE_SZ,
{
    p.to_raw_bytes()
}

/// `SerdeObject::from_raw_bytes_unchecked` of a base: the point whose coordinates lie in
/// memory as these bytes.
#[verifier::external_body]
fn g1_affine_parse_raw(b: &[u8]) -> (r: G1Affine)
    requires
        b@.len() == BASE_SZ,
    ensures
        g1_affine_raw(r) == b@,
        forall|p: G1Affine| #[trigger] g1_affine_raw(p) == b@ ==> r == p,
{
    G1Affine::from_raw_bytes_unchecked(b)
}

/// `SerdeObject::from_raw_bytes` of a base, which takes only reduced coordinates of a point
/// on the curve, whose every point is a multiple of the generator.
#[verifier::external_body]
fn g1_affine_parse_raw_checked(b: &[u8]) -> (r: Option<G1Affine>)
    requires
        b@.len() == BASE_SZ,
    ensures
        r matches Some(p) ==> g1_affine_raw(p) == b@ && exists|k: int| g1_affine_is(p, k),
        forall|p: G1Affine, k: int|
            #[trigger] g1_affine_raw(p) == b@ && #[trigger] g1_affine_is(p, k) ==> r == Some(p),
{
    G1Affine::from_raw_bytes(b)
}

/// `PrimeCurveAffine::is_identity` of `G1Affine`.
#[verifier::external_body]
fn g1_affine_is_identity(p: &G1Affine) -> (r: bool)
    ensures
        forall|k: int| #[trigger] g1_affine_is(*p, k) ==> r == (k % modulus() == 0),
{
    halo2curves::group::prime::PrimeCurveAffine::is_identity(p).into()
}

/// Width in bytes of one base in the raw layout.
pub const BASE_SZ: usize = 64;

/// Width in bytes of one base, taken from the generator.
pub fn base_size() -> (r: usize)
    ensures
        r == BASE_SZ,
{
    g1_affine_to_raw(&g1_generator()).len()
}

/// Whether a base is a multiple of the generator other than the identity.
pub fn is_proper(p: &G1Affine) -> (r: bool)
    ensures
        r == proper(*p),
{
    let raw = g1_affine_to_raw(p);
    match g1_affine_parse_raw_checked(raw.as_slice()) {
        Some(q) => {
            let again = g1_affine_parse_raw(raw.as_slice());
            assert(again == *p && again == q);
            let none = g1_affine_is_identity(p);
            proof {
                let k = choose|k: int| g1_affine_is(q, k);
                assert(g1_affine_is(*p, k));
                assert(none == (k % modulus() == 0));
            }
            !none
        },
        None => {
            assert(forall|k: int| !g1_affine_is(*p, k)) by {
                assert forall|k: int| !g1_affine_is(*p, k) by {
                    if g1_affine_is(*p, k) {
                        assert(g1_affine_raw(*p) == raw@);
                    }
                }
            }
            false
        },
    }
}

/// [`msm_incore`] on any bases and scalars: nothing where their numbers differ, where there
/// are more bases than it counts, or where it would batch bases that are not all proper.
pub fn try_msm_incore(bases: &[G1Affine], scalars: &[Fr]) -> (r: Option<G1>)
    ensures
        r is Some <==> scalars@.len() == bases@.len() && bases@.len() <= u32::MAX && (bases@.len()
            <= PROJECTIVE_MAX || all_proper(bases@)),
        r is Some && bases_ok::<G1>(bases@) ==> g1_is(r->0, msm_log(bases@, scalars@)),
{
    let n = bases.len();
    if n != scalars.len() || n > u32::MAX as usize {
        return None;
    }
    if n > PROJECTIVE_MAX {
        for i in 0..n
            invariant
                n == bases@.len(),
                n > PROJECTIVE_MAX,
                forall|j: int| 0 <= j < i ==> proper(#[trigger] bases@[j]),
        {
            if !is_proper(&bases[i]) {
                assert(!proper(bases@[i as int]));
                return None;
            }
        }
    }
    Some(msm_incore(bases, scalars))
}

/// Record `i` of a byte string of bases.
pub open spec fn base_record(b: Seq<u8>, i: int) -> Seq<u8> {
    b.subrange(i * BASE_SZ, i * BASE_SZ + BASE_SZ)
}

/// `b` holds the raw bytes of the bases, one record each.
pub open spec fn is_raw_of_bases(b: Seq<u8>, s: Seq<G1Affine>) -> bool {
    &&& b.len() == s.len() * BASE_SZ
    &&& forall|i: int| 0 <= i < s.len() ==> base_record(b, i) == g1_affine_raw(#[trigger] s[i])
}

/// A file of raw records of bases: 64 bytes for each base, its own, in order.
pub proof fn law_base_records(b: Seq<u8>, s: Seq<G1Affine>)
    ensures
        is_raw_of_bases(b, s) <==> b.len() == 64 * s.len() && forall|i: int| #![trigger s[i]]
            0 <= i < s.len() ==> b.subrange(64 * i, 64 * i + 64) == g1_affine_raw(s[i]),
{
}

/// Encode bases as raw records.
pub fn encode_bases(bases: &[G1Affine]) -> (b: Vec<u8>)
    ensures
        is_raw_of_bases(b@, bases@),
{
    let mut b: Vec<u8> = Vec::new();
    for i in 0..bases.len()
        invariant
            b@.len() == i * BASE_SZ,
            forall|k: int| 0 <= k < i ==> base_record(b@, k) == g1_affine_raw(#[trigger] bases@[k]),
    {
        let mut rec = g1_affine_to_raw(&bases[i]);
        let ghost before = b@;
        let ghost added = rec@;
        b.append(&mut rec);
        proof {
            assert(b@ == before + added);
            assert forall|k: int| 0 <= k < i + 1 implies base_record(b@, k) == g1_affine_raw(
                #[trigger] bases@[k],
            ) by {
                if k < i {
                    assert(base_record(b@, k) =~= base_record(before, k));
                } else {
                    assert(base_record(b@, k) =~= added);
                }
            }
        }
    }
    b
}

/// Decode raw records: the bases whose raw bytes these are, and no others.
pub fn decode_bases(b: &[u8]) -> (r: Vec<G1Affine>)
    requires
        b@.len() % BASE_SZ as nat == 0,
    ensures
        is_raw_of_bases(b@, r@),
        forall|s: Seq<G1Affine>| is_raw_of_bases(b@, s) ==> r@ == s,
{
    let n: usize = b.len() / BASE_SZ;
    let mut r: Vec<G1Affine> = Vec::new();
    for i in 0..n
        invariant
            b@.len() == n * BASE_SZ,
            b@.len() <= usize::MAX,
            r@.len() == i,
            forall|k: int| 0 <= k < i ==> base_record(b@, k) == g1_affine_raw(#[trigger] r@[k]),
            forall|k: int, x: G1Affine|
                0 <= k < i && #[trigger] g1_affine_raw(x) == base_record(b@, k) ==> #[trigger] r@[k]
                    == x,
    {
        let rec = vstd::slice::slice_subrange(b, i * BASE_SZ, i * BASE_SZ + BASE_SZ);
        r.push(g1_affine_parse_raw(rec));
    }
    proof {
        assert forall|s: Seq<G1Affine>| is_raw_of_bases(b@, s) implies r@ == s by {
            assert forall|k: int| 0 <= k < r@.len() implies r@[k] == s[k] by {
                assert(g1_affine_raw(s[k]) == base_record(b@, k));
            }
            assert(r@ =~= s);
        }
    }
    r
}

/// A multi-scalar multiplication in progress: the scalars resident, the bases streaming past
/// as raw records, a block at a time.
pub struct BasesStream {
    reprs: Vec<Repr>,
    block: usize,
    done: usize,
    acc: Accumulator<G1>,
    /// The bases so far.
    seen: Ghost<Seq<G1Affine>>,
}

impl BasesStream {
    /// The integers of the scalars.
    pub closed spec fn scalars(&self) -> Seq<int> {
        values(self.reprs@)
    }

    /// The bases so far.
    pub closed spec fn seen(&self) -> Seq<G1Affine> {
        self.seen@
    }

    /// The number of bases of the next block.
    pub open spec fn due(&self) -> int {
        let left = self.scalars().len() - self.seen().len();
        if self.block() < left {
            self.block()
        } else {
            left
        }
    }

    pub closed spec fn block(&self) -> int {
        self.block as int
    }

    /// The buckets hold the bases so far, each times its scalar.
    pub closed spec fn wf(&self) -> bool {
        &&& self.done == self.seen@.len()
        &&& self.done <= self.reprs@.len()
        &&& self.acc.wf()
        &&& self.acc.nbits() == 254
        &&& scalars_fit(self.reprs@, 254)
        &&& self.acc.sound() == bases_ok::<G1>(self.seen@)
        &&& self.acc.total() == inner_product(
            values(self.reprs@).take(self.done as int),
            base_logs::<G1>(self.seen@),
        )
    }

    /// Nothing read yet.
    pub fn new(scalars: &[Fr], block: usize) -> (r: Self)
        ensures
            r.wf(),
            r.scalars() == vals(scalars@),
            r.seen() == Seq::<G1Affine>::empty(),
            r.block() == block,
    {
        let digits = reprs(scalars);
        let nbits: usize = fr_num_bits() as usize;
        let acc: Accumulator<G1> = Accumulator::new(scalars.len(), nbits);
        BasesStream { reprs: digits, block, done: 0, acc, seen: Ghost(Seq::empty()) }
    }

    /// The number of bases to read next; zero once every scalar has met its base.
    pub fn next_block(&self) -> (r: usize)
        requires
            self.wf(),
        ensures
            r == self.due(),
            r <= self.block(),
            self.seen().len() + r <= self.scalars().len(),
            r == self.block() || self.seen().len() + r == self.scalars().len(),
    {
        let left: usize = self.reprs.len() - self.done;
        assert(self.scalars().len() == self.reprs@.len());
        if self.block < left {
            self.block
        } else {
            left
        }
    }

    /// Route the next block's bases, given as raw records, into the buckets.
    pub fn absorb(&mut self, bytes: &[u8])
        requires
            old(self).wf(),
            bytes@.len() == old(self).due() * BASE_SZ,
        ensures
            final(self).wf(),
            final(self).scalars() == old(self).scalars(),
            final(self).block() == old(self).block(),
            final(self).seen().len() == old(self).seen().len() + old(self).due(),
            final(self).seen().take(old(self).seen().len() as int) == old(self).seen(),
            is_raw_of_bases(bytes@, final(self).seen().skip(old(self).seen().len() as int)),
            forall|s: Seq<G1Affine>|
                is_raw_of_bases(bytes@, s) ==> final(self).seen() == old(self).seen() + s,
    {
        let ghost before = *self;
        let bases = decode_bases(bytes);
        let m = bases.len();
        let at = self.done;
        proof {
            assert(self.scalars().len() == self.reprs@.len());
            assert(m == self.due());
        }
        let digits = self.reprs.as_slice();
        let held: usize = digits.len();
        assert(at + m <= held);
        let part = vstd::slice::slice_subrange(digits, at, at + m);
        proof {
            assert forall|i: int| 0 <= i < part@.len() implies 0 <= (#[trigger] part@[i]).value()
                < pow2(254) by {
                assert(part@[i] == self.reprs@[at + i]);
            }
        }
        self.acc.absorb(bases.as_slice(), part);
        self.done = at + m;
        self.seen = Ghost(before.seen@ + bases@);
        proof {
            let v = values(self.reprs@);
            let k1 = base_logs::<G1>(before.seen@);
            let k2 = base_logs::<G1>(bases@);
            law_blocks_add(v.take(at as int), k1, values(part@), k2);
            assert(v.take(at as int) + values(part@) =~= v.take(at + m));
            assert(k1 + k2 =~= base_logs::<G1>(self.seen@));
            lemma_bases_ok_append(before.seen@, bases@);
            assert(self.seen@.take(before.seen@.len() as int) =~= before.seen@);
            assert(self.seen@.skip(before.seen@.len() as int) =~= bases@);
        }
    }

    /// The result, once every base has passed.
    pub fn finish(&self) -> (r: G1)
        requires
            self.wf(),
            self.seen().len() == self.scalars().len(),
        ensures
            bases_ok::<G1>(self.seen()) ==> g1_is(
                r,
                inner_product(self.scalars(), base_logs::<G1>(self.seen())),
            ),
    {
        proof {
            assert(values(self.reprs@).take(self.done as int) =~= values(self.reprs@));
        }
        self.acc.finish()
    }
}

proof fn lemma_bases_ok_append(a: Seq<G1Affine>, b: Seq<G1Affine>)
    ensures
        bases_ok::<G1>(a + b) == (bases_ok::<G1>(a) && bases_ok::<G1>(b)),
{
    let c = a + b;
    if bases_ok::<G1>(c) {
        assert forall|i: int| 0 <= i < a.len() implies is_multiple::<G1>(#[trigger] a[i]) by {
            assert(c[i] == a[i]);
        }
        assert forall|i: int| 0 <= i < b.len() implies is_multiple::<G1>(#[trigger] b[i]) by {
            assert(c[a.len() + i] == b[i]);
        }
    }
}

/// Streaming is in-core: once every base has passed, in whatever blocks, the stream's result is
/// the multiple of the generator that [`msm_incore`] and [`msm_pippenger`] give.
pub proof fn law_streamed_is_incore(
    stream: BasesStream,
    bases: Seq<G1Affine>,
    scalars: Seq<Fr>,
)
    requires
        stream.wf(),
        stream.seen() == bases,
        stream.scalars() == vals(scalars),
    ensures
        inner_product(stream.scalars(), base_logs::<G1>(stream.seen())) == msm_log(bases, scalars),
{
}

/// A run of records of a byte string of bases.
proof fn lemma_run_of_bases(b: Seq<u8>, s: Seq<G1Affine>, at: int, count: int)
    requires
        is_raw_of_bases(b, s),
        0 <= at,
        0 <= count,
        at + count <= s.len(),
    ensures
        is_raw_of_bases(
            b.subrange(at * BASE_SZ, (at + count) * BASE_SZ),
            s.subrange(at, at + count),
        ),
{
    let part = b.subrange(at * BASE_SZ, (at + count) * BASE_SZ);
    let run = s.subrange(at, at + count);
    assert forall|i: int| 0 <= i < run.len() implies base_record(part, i) == g1_affine_raw(
        #[trigger] run[i],
    ) by {
        assert(run[i] == s[at + i]);
        assert(base_record(part, i) =~= base_record(b, at + i));
    }
}

/// Out-of-core multi-scalar multiplication over the records of a base file: its first
/// `scalars.len()` records pass once, in order, `block` at a time. Nothing if the file holds
/// fewer.
pub fn msm_ooc_bases(file: &[u8], scalars: &[Fr], block: usize) -> (r: Option<G1>)
    requires
        block > 0 || scalars@.len() == 0,
    ensures
        r is Some <==> scalars@.len() * BASE_SZ <= file@.len(),
        r is Some ==> forall|bases: Seq<G1Affine>|
            #[trigger] is_raw_of_bases(file@.take((scalars@.len() * BASE_SZ) as int), bases)
                && bases_ok::<G1>(bases) ==> g1_is(r->0, msm_log(bases, scalars@)),
{
    let n = scalars.len();
    if n > file.len() / BASE_SZ {
        return None;
    }
    let mut stream = BasesStream::new(scalars, block);
    let mut done: usize = 0;
    let ghost all = file@.take((n * BASE_SZ) as int);
    let size = file.len();
    while done < n
        invariant
            block > 0 || n == 0,
            n == scalars@.len(),
            size == file@.len(),
            n * BASE_SZ <= size,
            all == file@.take((n * BASE_SZ) as int),
            done <= n,
            stream.wf(),
            stream.block() == block,
            stream.scalars() == vals(scalars@),
            stream.seen().len() == done,
            forall|bases: Seq<G1Affine>| #[trigger]
                is_raw_of_bases(all, bases) ==> stream.seen() == bases.take(done as int),
        decreases n - done,
    {
        let this = stream.next_block();
        assert(vals(scalars@).len() == n);
        let part = vstd::slice::slice_subrange(file, done * BASE_SZ, (done + this) * BASE_SZ);
        let ghost before = stream.seen();
        stream.absorb(part);
        proof {
            assert forall|bases: Seq<G1Affine>| #[trigger]
                is_raw_of_bases(all, bases) implies stream.seen() == bases.take(done + this) by {
                lemma_run_of_bases(all, bases, done as int, this as int);
                assert(part@ =~= all.subrange(done * BASE_SZ, (done + this) * BASE_SZ));
                assert(bases.take(done as int) + bases.subrange(done as int, done + this)
                    =~= bases.take(done + this));
            }
        }
        done = done + this;
    }
    let r = stream.finish();
    proof {
        assert forall|bases: Seq<G1Affine>| #[trigger]
            is_raw_of_bases(all, bases) && bases_ok::<G1>(bases) implies g1_is(
            r,
            msm_log(bases, scalars@),
        ) by {
            assert(bases.take(n as int) =~= bases);
        }
    }
    Some(r)
}

} // verus!
