//! Variable-base multi-scalar multiplication over the BN254 curve of arkworks, in core and
//! streaming.
//!
//! Bases and scalars pass once, in blocks, while every window's buckets stay resident. Group
//! addition is abelian, so the streamed point is the in-core one.

use ark_ec::{AdditiveGroup, AffineRepr, CurveGroup, VariableBaseMSM};
use ark_ff::{BigInt, BigInteger, PrimeField};
use ark_serialize::{CanonicalDeserialize, CanonicalSerialize, Compress};
use vstd::arithmetic::div_mod::*;
use vstd::arithmetic::mul::*;
use vstd::arithmetic::power2::*;
use vstd::prelude::*;

use crate::field::{le_int, lemma_modulus_bounds, modulus};
use crate::grid::lemma_cell;
use crate::pippenger::{
    base_log, base_logs, bases_ok, digit_of, inner_product, is_multiple, law_blocks_add,
    lemma_digit_step, pippenger, scalars_fit, values, Accumulator, Digits, Group,
};
use crate::powers::{lemma_word_bit, two_to};
use crate::sums::{lemma_sum_eq, lemma_sum_scale, lemma_sum_split, sum};

verus! {

/// The prime order of the field of the curve's coordinates.
pub open spec fn base_modulus() -> int {
    0x30644e72e131a029b85045b68181585d97816a916871ca8d3c208c16d87cfd47int
}

/// The integer that four little-endian limbs spell.
pub open spec fn limbs_int(l: Seq<u64>) -> int {
    l[0] as int + 0x1_0000_0000_0000_0000int * (l[1] as int + 0x1_0000_0000_0000_0000int * (
    l[2] as int + 0x1_0000_0000_0000_0000int * (l[3] as int)))
}

/// A coordinate in reduced form.
pub open spec fn reduced(l: Seq<u64>) -> bool {
    limbs_int(l) < base_modulus()
}

/// A point in affine form: its coordinates, in the limbs in which arkworks holds them.
#[derive(Clone, Copy, Debug, PartialEq, Eq)]
pub struct AffinePoint {
    pub x: [u64; 4],
    pub y: [u64; 4],
    pub infinity: bool,
}

impl AffinePoint {
    pub open spec fn view(&self) -> (Seq<u64>, Seq<u64>, bool) {
        (self.x@, self.y@, self.infinity)
    }

    pub open spec fn wf(&self) -> bool {
        reduced(self.x@) && reduced(self.y@)
    }
}

/// A point in Jacobian form: its coordinates, in the limbs in which arkworks holds them.
#[derive(Clone, Copy, Debug, PartialEq, Eq)]
pub struct JacobianPoint {
    pub x: [u64; 4],
    pub y: [u64; 4],
    pub z: [u64; 4],
}

/// A scalar: its integer in four little-endian limbs.
#[derive(Clone, Copy, Debug, PartialEq, Eq)]
pub struct Scalar {
    pub limbs: [u64; 4],
}

impl Scalar {
    /// The integer.
    pub open spec fn value(&self) -> int {
        limbs_int(self.limbs@)
    }

    /// The integer is below the modulus.
    pub open spec fn wf(&self) -> bool {
        self.value() < modulus()
    }
}

/// The integers of scalars.
pub open spec fn scalar_values(s: Seq<Scalar>) -> Seq<int> {
    Seq::new(s.len(), |i: int| s[i].value())
}

pub open spec fn scalars_wf(s: Seq<Scalar>) -> bool {
    forall|i: int| 0 <= i < s.len() ==> (#[trigger] s[i]).wf()
}

pub open spec fn points_reduced(s: Seq<AffinePoint>) -> bool {
    forall|i: int| 0 <= i < s.len() ==> (#[trigger] s[i]).wf()
}

/// Scalars are in order when their integers are below the order of the scalar field, points when
/// both coordinates are below the order of the curve's field.
pub proof fn law_inputs_in_order(s: Seq<Scalar>, p: Seq<AffinePoint>)
    ensures
        scalars_wf(s) <==> forall|i: int| #![trigger s[i]]
            0 <= i < s.len() ==> limbs_int(s[i].limbs@) < modulus(),
        points_reduced(p) <==> forall|i: int| #![trigger p[i]]
            0 <= i < p.len() ==> limbs_int(p[i].x@) < base_modulus() && limbs_int(p[i].y@)
                < base_modulus(),
{
}

/// What `into_affine` returns for `k` times the generator.
pub uninterp spec fn affine_multiple(k: int) -> (Seq<u64>, Seq<u64>, bool);

/// What `==` says of the Jacobian point with these coordinates and `k` times the generator.
pub uninterp spec fn projective_is(x: Seq<u64>, y: Seq<u64>, z: Seq<u64>, k: int) -> bool;

/// What `serialize_uncompressed` writes for an affine point.
pub uninterp spec fn point_bytes(x: Seq<u64>, y: Seq<u64>, infinity: bool) -> Seq<u8>;

/// `Zero::zero` of `G1Projective`: zero times the generator.
#[verifier::external_body]
fn g1_zero() -> (r: JacobianPoint)
    ensures
        r.wf(),
        projective_is(r.x@, r.y@, r.z@, 0),
{
    let p = <ark_bn254::G1Projective as ark_std::Zero>::zero();
    JacobianPoint { x: p.x.0.0, y: p.y.0.0, z: p.z.0.0 }
}

/// `AdditiveGroup::double_in_place` of `G1Projective`: twice the multiple.
#[verifier::external_body]
fn g1_double(p: &JacobianPoint) -> (r: JacobianPoint)
    requires
        p.wf(),
    ensures
        r.wf(),
        forall|k: int|
            #[trigger] projective_is(p.x@, p.y@, p.z@, k) ==> projective_is(
                r.x@,
                r.y@,
                r.z@,
                2 * k,
            ),
{
    let mut q = ark_bn254::G1Projective::new_unchecked(
        ark_bn254::Fq::new_unchecked(BigInt(p.x)),
        ark_bn254::Fq::new_unchecked(BigInt(p.y)),
        ark_bn254::Fq::new_unchecked(BigInt(p.z)),
    );
    q.double_in_place();
    JacobianPoint { x: q.x.0.0, y: q.y.0.0, z: q.z.0.0 }
}

/// `+=` of two `G1Projective`: the sum of the multiples.
#[verifier::external_body]
fn g1_add(p: &JacobianPoint, q: &JacobianPoint) -> (r: JacobianPoint)
    requires
        p.wf(),
        q.wf(),
    ensures
        r.wf(),
        forall|j: int, k: int|
            #[trigger] projective_is(p.x@, p.y@, p.z@, j) && #[trigger] projective_is(
                q.x@,
                q.y@,
                q.z@,
                k,
            ) ==> projective_is(r.x@, r.y@, r.z@, j + k),
{
    let mut s = ark_bn254::G1Projective::new_unchecked(
        ark_bn254::Fq::new_unchecked(BigInt(p.x)),
        ark_bn254::Fq::new_unchecked(BigInt(p.y)),
        ark_bn254::Fq::new_unchecked(BigInt(p.z)),
    );
    s += &ark_bn254::G1Projective::new_unchecked(
        ark_bn254::Fq::new_unchecked(BigInt(q.x)),
        ark_bn254::Fq::new_unchecked(BigInt(q.y)),
        ark_bn254::Fq::new_unchecked(BigInt(q.z)),
    );
    JacobianPoint { x: s.x.0.0, y: s.y.0.0, z: s.z.0.0 }
}

/// `+=` of a `G1Projective` and a `G1Affine`: the sum of the multiples.
#[verifier::external_body]
fn g1_add_affine(p: &JacobianPoint, q: &AffinePoint) -> (r: JacobianPoint)
    requires
        p.wf(),
        q.wf(),
    ensures
        r.wf(),
        forall|j: int, k: int|
            #[trigger] projective_is(p.x@, p.y@, p.z@, j) && q@ == #[trigger] affine_multiple(k)
                ==> projective_is(r.x@, r.y@, r.z@, j + k),
{
    let mut s = ark_bn254::G1Projective::new_unchecked(
        ark_bn254::Fq::new_unchecked(BigInt(p.x)),
        ark_bn254::Fq::new_unchecked(BigInt(p.y)),
        ark_bn254::Fq::new_unchecked(BigInt(p.z)),
    );
    s += ark_bn254::G1Affine {
        x: ark_bn254::Fq::new_unchecked(BigInt(q.x)),
        y: ark_bn254::Fq::new_unchecked(BigInt(q.y)),
        infinity: q.infinity,
    };
    JacobianPoint { x: s.x.0.0, y: s.y.0.0, z: s.z.0.0 }
}

/// `CurveGroup::into_affine` of `G1Projective`: the same multiple, in its one affine form.
#[verifier::external_body]
fn g1_into_affine(p: &JacobianPoint) -> (r: AffinePoint)
    requires
        p.wf(),
    ensures
        r.wf(),
        forall|k: int|
            #[trigger] projective_is(p.x@, p.y@, p.z@, k) ==> r@ == affine_multiple(k),
{
    let q = ark_bn254::G1Projective::new_unchecked(
        ark_bn254::Fq::new_unchecked(BigInt(p.x)),
        ark_bn254::Fq::new_unchecked(BigInt(p.y)),
        ark_bn254::Fq::new_unchecked(BigInt(p.z)),
    ).into_affine();
    AffinePoint { x: q.x.0.0, y: q.y.0.0, infinity: q.infinity }
}

impl JacobianPoint {
    /// The affine form.
    pub fn into_affine(&self) -> (r: AffinePoint)
        requires
            self.wf(),
        ensures
            r.wf(),
            forall|k: int| #[trigger] self.is(k) ==> r@ == affine_multiple(k),
    {
        let r = g1_into_affine(self);
        proof {
            assert forall|k: int| #[trigger] self.is(k) implies r@ == affine_multiple(k) by {
                assert(projective_is(self.x@, self.y@, self.z@, k));
            }
        }
        r
    }
}

impl Group for JacobianPoint {
    type Base = AffinePoint;

    open spec fn wf(self) -> bool {
        reduced(self.x@) && reduced(self.y@) && reduced(self.z@)
    }

    open spec fn base_wf(b: AffinePoint) -> bool {
        b.wf()
    }

    open spec fn is(self, k: int) -> bool {
        projective_is(self.x@, self.y@, self.z@, k)
    }

    open spec fn base_is(b: AffinePoint, k: int) -> bool {
        b@ == affine_multiple(k)
    }

    fn identity() -> (r: JacobianPoint) {
        g1_zero()
    }

    fn double(&self) -> (r: JacobianPoint) {
        g1_double(self)
    }

    fn plus(&self, other: &JacobianPoint) -> (r: JacobianPoint) {
        g1_add(self, other)
    }

    fn plus_base(&self, base: &AffinePoint) -> (r: JacobianPoint) {
        g1_add_affine(self, base)
    }
}

/// The integer that little-endian bits spell.
pub open spec fn bits_int(b: Seq<bool>) -> int
    decreases b.len(),
{
    if b.len() == 0 {
        0
    } else {
        (if b[0] {
            1int
        } else {
            0int
        }) + 2 * bits_int(b.skip(1))
    }
}

/// Little-endian bits spell the sum of the powers of two at which they are set.
pub proof fn law_bits_spell(b: Seq<bool>)
    ensures
        bits_int(b) == sum(
            |i: int|
                if b[i] {
                    pow2(i as nat) as int
                } else {
                    0
                },
            b.len(),
        ),
    decreases b.len(),
{
    lemma2_to64();
    if b.len() > 0 {
        let rest = b.skip(1);
        let k = rest.len();
        let f = |i: int|
            if b[i] {
                pow2(i as nat) as int
            } else {
                0
            };
        let g = |i: int|
            if rest[i] {
                pow2(i as nat) as int
            } else {
                0
            };
        law_bits_spell(rest);
        lemma_sum_split(f, 1, k);
        assert(sum(f, 1) == sum(f, 0) + f(0));
        let up = |i: int| f(1 + i);
        let scaled = |i: int| 2 * g(i);
        assert forall|i: int| 0 <= i < k implies #[trigger] up(i) == scaled(i) by {
            lemma_pow2_unfold((i + 1) as nat);
            assert(rest[i] == b[1 + i]);
        }
        lemma_sum_eq(up, scaled, k);
        lemma_sum_scale(g, 2, k);
    }
}

/// Bit `i` of the integer that bits spell.
proof fn lemma_bit_of_bits(b: Seq<bool>, i: nat)
    ensures
        0 <= bits_int(b),
        (bits_int(b) / pow2(i) as int) % 2 == (if i < b.len() && b[i as int] {
            1int
        } else {
            0int
        }),
    decreases b.len(),
{
    lemma2_to64();
    lemma_pow2_pos(i);
    if b.len() == 0 {
        lemma_div_basics(pow2(i) as int);
    } else if i == 0 {
        let rest = bits_int(b.skip(1));
        lemma_bit_of_bits(b.skip(1), 0);
        lemma_div_basics(bits_int(b));
        lemma_mod_multiples_vanish(rest, 1, 2);
        lemma_mod_multiples_vanish(rest, 0, 2);
    } else {
        let j = (i - 1) as nat;
        lemma_pow2_unfold(i);
        lemma_pow2_pos(j);
        lemma_bit_of_bits(b.skip(1), j);
        lemma_div_denominator(bits_int(b), 2, pow2(j) as int);
        assert(bits_int(b) / 2 == bits_int(b.skip(1)));
        assert(j < b.skip(1).len() ==> b.skip(1)[j as int] == b[i as int]);
    }
}

/// The `c`-bit digit, at window `w`, of a scalar given as little-endian bits.
pub fn digit(bits: &[bool], w: usize, c: usize) -> (r: usize)
    requires
        c <= usize::BITS,
        (w + 1) * c <= usize::MAX + 1,
    ensures
        r == digit_of(bits_int(bits@), w as nat, c as nat),
{
    proof {
        lemma_mul_is_distributive_add_other_way(c as int, w as int, 1);
        lemma_mul_basics(w as int);
        lemma_bit_of_bits(bits@, 0);
        lemma2_to64();
    }
    let start: usize = w * c;
    let n = bits.len();
    let mut d: usize = 0;
    let ghost v = bits_int(bits@);
    assert((v / pow2(start as nat) as int) % 1 == 0);
    for k in 0..c
        invariant
            c <= usize::BITS,
            start + c <= usize::MAX + 1,
            n == bits@.len(),
            v == bits_int(bits@),
            0 <= v,
            d == (v / pow2(start as nat) as int) % pow2(k as nat) as int,
    {
        let idx: usize = start + k;
        proof {
            lemma_digit_step(v, start as nat, k as nat);
            lemma_bit_of_bits(bits@, idx as nat);
            lemma_word_bit(k as nat);
            lemma_mul_basics(pow2(k as nat) as int);
        }
        if idx < n && bits[idx] {
            d = d + two_to(k);
        }
    }
    d
}

/// A scalar as the little-endian bits of its integer.
pub struct Bits {
    bits: Vec<bool>,
}

impl Bits {
    /// The bits.
    pub closed spec fn view(&self) -> Seq<bool> {
        self.bits@
    }
}

impl Digits for Bits {
    open spec fn value(&self) -> int {
        bits_int(self@)
    }

    fn digit(&self, w: usize, c: usize) -> (r: usize) {
        digit(self.bits.as_slice(), w, c)
    }
}

/// `BigInteger::to_bits_le` of the integer in the limbs: its bits, lowest first.
#[verifier::external_body]
fn limbs_to_bits(limbs: &[u64; 4]) -> (r: Vec<bool>)
    ensures
        r@.len() == 256,
        bits_int(r@) == limbs_int(limbs@),
{
    BigInt::<4>(*limbs).to_bits_le()
}

/// `PrimeField::MODULUS_BIT_SIZE`: the bit length of the scalar modulus.
#[verifier::external_body]
fn modulus_bit_size() -> (r: u32)
    ensures
        r == 254,
{
    ark_bn254::Fr::MODULUS_BIT_SIZE
}

/// The bits of every scalar.
pub fn scalar_bits(scalars: &[Scalar]) -> (r: Vec<Bits>)
    requires
        scalars_wf(scalars@),
    ensures
        values(r@) == scalar_values(scalars@),
        scalars_fit(r@, 254),
{
    let mut r: Vec<Bits> = Vec::with_capacity(scalars.len());
    for i in 0..scalars.len()
        invariant
            scalars_wf(scalars@),
            r@.len() == i,
            forall|j: int| 0 <= j < i ==> (#[trigger] r@[j]).value() == scalars@[j].value(),
            forall|j: int| 0 <= j < i ==> 0 <= (#[trigger] r@[j]).value() < pow2(254),
    {
        let bits = limbs_to_bits(&scalars[i].limbs);
        proof {
            lemma_modulus_bounds();
            lemma_bit_of_bits(bits@, 0);
            assert(scalars@[i as int].wf());
        }
        r.push(Bits { bits });
    }
    assert(values(r@) =~= scalar_values(scalars@));
    r
}

/// `Sum_i scalars[i] * bases[i]`, as a multiple of the generator.
pub open spec fn msm_log(bases: Seq<AffinePoint>, scalars: Seq<Scalar>) -> int {
    inner_product(scalar_values(scalars), base_logs::<JacobianPoint>(bases))
}

/// A multi-scalar product of bases that are multiples of the generator is the sum of the bases'
/// multiples, each times the integer of its own scalar; every base counts.
pub proof fn law_product_is_sum(
    bases: Seq<AffinePoint>,
    scalars: Seq<Scalar>,
    r: JacobianPoint,
) -> (k: Seq<int>)
    requires
        bases.len() == scalars.len(),
        forall|i: int|
            0 <= i < bases.len() ==> exists|k: int| (#[trigger] bases[i])@ == affine_multiple(k),
        bases_ok::<JacobianPoint>(bases) ==> r.is(msm_log(bases, scalars)),
    ensures
        k.len() == bases.len(),
        forall|i: int| 0 <= i < k.len() ==> bases[i]@ == affine_multiple(#[trigger] k[i]),
        projective_is(
            r.x@,
            r.y@,
            r.z@,
            sum(|i: int| limbs_int(scalars[i].limbs@) * k[i], bases.len()),
        ),
{
    let k = base_logs::<JacobianPoint>(bases);
    let v = scalar_values(scalars);
    assert forall|i: int| 0 <= i < bases.len() implies is_multiple::<JacobianPoint>(
        #[trigger] bases[i],
    ) && bases[i]@ == affine_multiple(k[i]) by {
        let j = choose|j: int| bases[i]@ == affine_multiple(j);
        assert(JacobianPoint::base_is(bases[i], j));
        assert(JacobianPoint::base_is(bases[i], base_log::<JacobianPoint>(bases[i])));
    }
    assert(bases_ok::<JacobianPoint>(bases));
    lemma_sum_eq(
        |i: int| v[i] * k[i],
        |i: int| limbs_int(scalars[i].limbs@) * k[i],
        bases.len(),
    );
    k
}

/// `VariableBaseMSM::msm` of `G1Projective` on as many scalars as bases: the sum of the
/// bases, each times its scalar.
#[verifier::external_body]
fn g1_msm(bases: &[AffinePoint], scalars: &[Scalar]) -> (r: JacobianPoint)
    requires
        bases@.len() == scalars@.len(),
        points_reduced(bases@),
        scalars_wf(scalars@),
    ensures
        r.wf(),
        bases_ok::<JacobianPoint>(bases@) ==> projective_is(
            r.x@,
            r.y@,
            r.z@,
            msm_log(bases@, scalars@),
        ),
{
    let b: Vec<_> = bases.iter().map(|p| ark_bn254::G1Affine {
        x: ark_bn254::Fq::new_unchecked(BigInt(p.x)),
        y: ark_bn254::Fq::new_unchecked(BigInt(p.y)),
        infinity: p.infinity,
    }).collect();
    let s: Vec<_> =
        scalars.iter().map(|s| ark_bn254::Fr::from_bigint(BigInt(s.limbs)).unwrap()).collect();
    let r = ark_bn254::G1Projective::msm(&b, &s).unwrap();
    JacobianPoint { x: r.x.0.0, y: r.y.0.0, z: r.z.0.0 }
}

/// In-core reference: arkworks' own multi-scalar multiplication.
pub fn msm_incore(bases: &[AffinePoint], scalars: &[Scalar]) -> (r: JacobianPoint)
    requires
        bases@.len() == scalars@.len(),
        points_reduced(bases@),
        scalars_wf(scalars@),
    ensures
        r.wf(),
        bases_ok::<JacobianPoint>(bases@) ==> r.is(msm_log(bases@, scalars@)),
{
    g1_msm(bases, scalars)
}

/// In-core bucketed Pippenger: the streaming structure with the bases in memory.
pub fn msm_pippenger(bases: &[AffinePoint], scalars: &[Scalar]) -> (r: JacobianPoint)
    requires
        bases@.len() == scalars@.len(),
        points_reduced(bases@),
        scalars_wf(scalars@),
    ensures
        r.wf(),
        bases_ok::<JacobianPoint>(bases@) ==> r.is(msm_log(bases@, scalars@)),
{
    let bits = scalar_bits(scalars);
    let nbits: usize = modulus_bit_size() as usize;
    assert(bits@.len() == values(bits@).len());
    assert(scalars@.len() == scalar_values(scalars@).len());
    pippenger::<JacobianPoint, Bits>(bases, bits.as_slice(), nbits)
}

/// Width in bytes of one point record and of one scalar record.
pub const POINT_SZ: usize = 64;

pub const SCALAR_SZ: usize = 32;

/// `CanonicalSerialize::serialized_size` of an affine point, uncompressed.
#[verifier::external_body]
fn g1_serialized_size() -> (r: usize)
    ensures
        r == POINT_SZ,
{
    ark_bn254::G1Affine::generator().serialized_size(Compress::No)
}

/// `CanonicalSerialize::serialized_size` of a scalar, uncompressed.
#[verifier::external_body]
fn fr_serialized_size() -> (r: usize)
    ensures
        r == SCALAR_SZ,
{
    <ark_bn254::Fr as ark_std::Zero>::zero().serialized_size(Compress::No)
}

/// A record of a point with the two flag bits at its top cleared.
pub open spec fn without_flags(b: Seq<u8>) -> Seq<u8> {
    b.update(63, (b[63] as int % 64) as u8)
}

/// A point record that can be read: not both flags set, and both coordinates below the
/// modulus.
pub open spec fn point_readable(b: Seq<u8>) -> bool {
    &&& b[63] < 192
    &&& le_int(b.take(32)) < base_modulus()
    &&& le_int(without_flags(b).skip(32)) < base_modulus()
}

/// A record with its infinity flag set.
pub open spec fn says_infinity(b: Seq<u8>) -> bool {
    b[63] as int / 64 == 1
}

/// `CanonicalSerialize::serialize_uncompressed` of an affine point.
#[verifier::external_body]
fn g1_serialize(p: &AffinePoint) -> (r: Vec<u8>)
    requires
        p.wf(),
    ensures
        r@ == point_bytes(p.x@, p.y@, p.infinity),
        r@.len() == POINT_SZ,
        point_readable(r@),
{
    let q = ark_bn254::G1Affine {
        x: ark_bn254::Fq::new_unchecked(BigInt(p.x)),
        y: ark_bn254::Fq::new_unchecked(BigInt(p.y)),
        infinity: p.infinity,
    };
    let mut r = Vec::new();
    q.serialize_uncompressed(&mut r).unwrap();
    r
}

/// `CanonicalDeserialize::deserialize_uncompressed_unchecked` of an affine point: succeeds on
/// readable records; a record with its infinity flag set reads as the identity, another as
/// the point that is written as these bytes, flags aside; a multiple of the generator is
/// read back as it was written.
#[verifier::external_body]
fn g1_deserialize(b: &[u8]) -> (r: Option<AffinePoint>)
    requires
        b@.len() == POINT_SZ,
    ensures
        r is Some <==> point_readable(b@),
        r matches Some(p) ==> p.wf() && p.infinity == says_infinity(b@),
        r matches Some(p) ==> (p.infinity ==> limbs_int(p.x@) == 0 && limbs_int(p.y@) == 0),
        r matches Some(p) ==> (!p.infinity ==> without_flags(point_bytes(p.x@, p.y@, false))
            == without_flags(b@)),
        forall|k: int|
            ({
                let m = #[trigger] affine_multiple(k);
                point_bytes(m.0, m.1, m.2) == b@
            }) ==> r is Some && r->0@ == affine_multiple(k),
{
    let p = ark_bn254::G1Affine::deserialize_uncompressed_unchecked(b).ok()?;
    Some(AffinePoint { x: p.x.0.0, y: p.y.0.0, infinity: p.infinity })
}

/// `CanonicalSerialize::serialize_uncompressed` of a scalar: its integer in 32 little-endian
/// bytes.
#[verifier::external_body]
fn fr_serialize(s: &Scalar) -> (r: Vec<u8>)
    requires
        s.wf(),
    ensures
        r@.len() == SCALAR_SZ,
        le_int(r@) == s.value(),
{
    let mut r = Vec::new();
    ark_bn254::Fr::from_bigint(BigInt(s.limbs)).unwrap().serialize_uncompressed(&mut r).unwrap();
    r
}

/// `CanonicalDeserialize::deserialize_uncompressed_unchecked` of a scalar: the integer that
/// 32 little-endian bytes spell, when it is below the modulus.
#[verifier::external_body]
fn fr_deserialize(b: &[u8]) -> (r: Option<Scalar>)
    requires
        b@.len() == SCALAR_SZ,
    ensures
        r is Some <==> le_int(b@) < modulus(),
        r matches Some(s) ==> s.value() == le_int(b@),
{
    let s = ark_bn254::Fr::deserialize_uncompressed_unchecked(b).ok()?;
    Some(Scalar { limbs: s.into_bigint().0 })
}

/// Record `i` of a byte string, in records of `size` bytes.
pub open spec fn record(b: Seq<u8>, i: int, size: int) -> Seq<u8> {
    b.subrange(i * size, i * size + size)
}

/// `b` holds the points, one record each.
pub open spec fn holds_points(b: Seq<u8>, s: Seq<AffinePoint>) -> bool {
    &&& b.len() == s.len() * POINT_SZ
    &&& forall|i: int|
        0 <= i < s.len() ==> record(b, i, POINT_SZ as int) == point_bytes(
            (#[trigger] s[i]).x@,
            s[i].y@,
            s[i].infinity,
        )
}

/// `b` holds the scalars, one record each.
pub open spec fn holds_scalars(b: Seq<u8>, s: Seq<Scalar>) -> bool {
    &&& b.len() == s.len() * SCALAR_SZ
    &&& forall|i: int|
        0 <= i < s.len() ==> le_int(record(b, i, SCALAR_SZ as int)) == (#[trigger] s[i]).value()
}

/// Every point record of `b` can be read.
pub open spec fn points_readable(b: Seq<u8>) -> bool {
    forall|i: int|
        0 <= i < b.len() / POINT_SZ as nat ==> point_readable(
            #[trigger] record(b, i, POINT_SZ as int),
        )
}

/// Every scalar record of `b` can be read.
pub open spec fn scalars_readable(b: Seq<u8>) -> bool {
    forall|i: int|
        0 <= i < b.len() / SCALAR_SZ as nat ==> le_int(#[trigger] record(b, i, SCALAR_SZ as int))
            < modulus()
}

/// Files of points and of scalars: 64 bytes for each point and 32 for each scalar, its own, in
/// order.
pub proof fn law_point_and_scalar_records(b: Seq<u8>, p: Seq<AffinePoint>, s: Seq<Scalar>)
    ensures
        holds_points(b, p) <==> b.len() == 64 * p.len() && forall|i: int| #![trigger p[i]]
            0 <= i < p.len() ==> b.subrange(64 * i, 64 * i + 64) == point_bytes(
                p[i].x@,
                p[i].y@,
                p[i].infinity,
            ),
        holds_scalars(b, s) <==> b.len() == 32 * s.len() && forall|i: int| #![trigger s[i]]
            0 <= i < s.len() ==> le_int(b.subrange(32 * i, 32 * i + 32)) == limbs_int(
                s[i].limbs@,
            ),
        points_readable(b) <==> forall|i: int|
            0 <= i < b.len() as int / 64 ==> point_readable(
                #[trigger] b.subrange(64 * i, 64 * i + 64),
            ),
        scalars_readable(b) <==> forall|i: int|
            0 <= i < b.len() as int / 32 ==> le_int(#[trigger] b.subrange(32 * i, 32 * i + 32))
                < modulus(),
{
    assert forall|i: int| record(b, i, POINT_SZ as int) == #[trigger] b.subrange(
        64 * i,
        64 * i + 64,
    ) by {}
    assert forall|i: int| record(b, i, SCALAR_SZ as int) == #[trigger] b.subrange(
        32 * i,
        32 * i + 32,
    ) by {}
    if forall|i: int|
        0 <= i < b.len() as int / 64 ==> point_readable(
            #[trigger] b.subrange(64 * i, 64 * i + 64),
        ) {
        assert forall|i: int| 0 <= i < b.len() / POINT_SZ as nat implies point_readable(
            #[trigger] record(b, i, POINT_SZ as int),
        ) by {
            assert(point_readable(b.subrange(64 * i, 64 * i + 64)));
        }
    }
    if points_readable(b) {
        assert forall|i: int| 0 <= i < b.len() as int / 64 implies point_readable(
            #[trigger] b.subrange(64 * i, 64 * i + 64),
        ) by {
            assert(point_readable(record(b, i, POINT_SZ as int)));
        }
    }
    if forall|i: int|
        0 <= i < b.len() as int / 32 ==> le_int(#[trigger] b.subrange(32 * i, 32 * i + 32))
            < modulus() {
        assert forall|i: int| 0 <= i < b.len() / SCALAR_SZ as nat implies le_int(
            #[trigger] record(b, i, SCALAR_SZ as int),
        ) < modulus() by {
            assert(le_int(b.subrange(32 * i, 32 * i + 32)) < modulus());
        }
    }
    if scalars_readable(b) {
        assert forall|i: int| 0 <= i < b.len() as int / 32 implies le_int(
            #[trigger] b.subrange(32 * i, 32 * i + 32),
        ) < modulus() by {
            assert(le_int(record(b, i, SCALAR_SZ as int)) < modulus());
        }
    }
}

/// Encode points as records.
pub fn encode_points(points: &[AffinePoint]) -> (b: Vec<u8>)
    requires
        points_reduced(points@),
    ensures
        holds_points(b@, points@),
        points_readable(b@),
{
    let mut b: Vec<u8> = Vec::new();
    for i in 0..points.len()
        invariant
            points_reduced(points@),
            b@.len() == i * POINT_SZ,
            forall|k: int|
                0 <= k < i ==> record(b@, k, POINT_SZ as int) == point_bytes(
                    (#[trigger] points@[k]).x@,
                    points@[k].y@,
                    points@[k].infinity,
                ),
            forall|k: int|
                0 <= k < i ==> point_readable(#[trigger] record(b@, k, POINT_SZ as int)),
    {
        let mut rec = g1_serialize(&points[i]);
        let ghost before = b@;
        let ghost added = rec@;
        b.append(&mut rec);
        proof {
            assert(b@ == before + added);
            assert(record(b@, i as int, POINT_SZ as int) =~= added);
            assert forall|k: int| 0 <= k < i implies #[trigger] record(b@, k, POINT_SZ as int)
                == record(before, k, POINT_SZ as int) by {
                assert(record(b@, k, POINT_SZ as int) =~= record(before, k, POINT_SZ as int));
            }
        }
    }
    b
}

/// Encode scalars as records.
pub fn encode_scalars(scalars: &[Scalar]) -> (b: Vec<u8>)
    requires
        scalars_wf(scalars@),
    ensures
        holds_scalars(b@, scalars@),
        scalars_readable(b@),
{
    let mut b: Vec<u8> = Vec::new();
    for i in 0..scalars.len()
        invariant
            scalars_wf(scalars@),
            b@.len() == i * SCALAR_SZ,
            forall|k: int|
                0 <= k < i ==> le_int(record(b@, k, SCALAR_SZ as int)) == (
                #[trigger] scalars@[k]).value(),
    {
        let mut rec = fr_serialize(&scalars[i]);
        let ghost before = b@;
        let ghost added = rec@;
        b.append(&mut rec);
        proof {
            assert(b@ == before + added);
            assert(record(b@, i as int, SCALAR_SZ as int) =~= added);
            assert forall|k: int| 0 <= k < i implies le_int(record(b@, k, SCALAR_SZ as int)) == (
            #[trigger] scalars@[k]).value() by {
                assert(record(b@, k, SCALAR_SZ as int) =~= record(before, k, SCALAR_SZ as int));
            }
        }
    }
    proof {
        assert forall|i: int| 0 <= i < b@.len() / SCALAR_SZ as nat implies le_int(
            #[trigger] record(b@, i, SCALAR_SZ as int),
        ) < modulus() by {
            assert(scalars@[i].wf());
        }
    }
    b
}

/// Decode point records: nothing if some record cannot be read, and otherwise the points,
/// each as it was written where it is a multiple of the generator.
pub fn decode_points(b: &[u8]) -> (r: Option<Vec<AffinePoint>>)
    requires
        b@.len() % POINT_SZ as nat == 0,
    ensures
        r is Some <==> points_readable(b@),
        r matches Some(p) ==> p@.len() == b@.len() / POINT_SZ as nat && points_reduced(p@),
        r matches Some(p) ==> forall|i: int| #![trigger p@[i]]
            0 <= i < p@.len() ==> reads_as(record(b@, i, POINT_SZ as int), p@[i]),
        forall|s: Seq<AffinePoint>| #[trigger]
            holds_points(b@, s) && bases_ok::<JacobianPoint>(s) ==> r is Some && r->0@ == s,
{
    let n: usize = b.len() / POINT_SZ;
    let mut r: Vec<AffinePoint> = Vec::with_capacity(n);
    for i in 0..n
        invariant
            n == b@.len() / POINT_SZ as nat,
            b@.len() == n * POINT_SZ,
            b@.len() <= usize::MAX,
            r@.len() == i,
            points_reduced(r@),
            forall|k: int|
                0 <= k < i ==> point_readable(#[trigger] record(b@, k, POINT_SZ as int)),
            forall|k: int| #![trigger r@[k]]
                0 <= k < i ==> reads_as(record(b@, k, POINT_SZ as int), r@[k]),
            forall|k: int, x: int| #![trigger r@[k], affine_multiple(x)]
                0 <= k < i && ({
                    let m = affine_multiple(x);
                    point_bytes(m.0, m.1, m.2) == record(b@, k, POINT_SZ as int)
                }) ==> r@[k]@ == affine_multiple(x),
    {
        let rec = vstd::slice::slice_subrange(b, i * POINT_SZ, i * POINT_SZ + POINT_SZ);
        match g1_deserialize(rec) {
            Some(p) => r.push(p),
            None => {
                proof {
                    assert(!point_readable(record(b@, i as int, POINT_SZ as int)));
                    assert forall|s: Seq<AffinePoint>| #[trigger]
                        holds_points(b@, s) && bases_ok::<JacobianPoint>(s) implies false by {
                        assert(is_multiple::<JacobianPoint>(s[i as int]));
                        let k = choose|k: int| JacobianPoint::base_is(s[i as int], k);
                        assert(s[i as int]@ == affine_multiple(k));
                    }
                }
                return None;
            },
        }
    }
    proof {
        assert forall|s: Seq<AffinePoint>| #[trigger]
            holds_points(b@, s) && bases_ok::<JacobianPoint>(s) implies r@ == s by {
            assert forall|i: int| 0 <= i < r@.len() implies #[trigger] r@[i] == s[i] by {
                assert(is_multiple::<JacobianPoint>(s[i]));
                let k = choose|k: int| JacobianPoint::base_is(s[i], k);
                assert(s[i]@ == affine_multiple(k));
                assert(r@[i]@ == s[i]@);
                assert(r@[i].x =~= s[i].x);
                assert(r@[i].y =~= s[i].y);
            }
            assert(r@ =~= s);
        }
    }
    Some(r)
}

/// The point that a record reads as: the identity where the infinity flag is set, and
/// otherwise the point that is written as these bytes, flags aside.
pub open spec fn reads_as(b: Seq<u8>, p: AffinePoint) -> bool {
    &&& p.infinity == says_infinity(b)
    &&& p.infinity ==> limbs_int(p.x@) == 0 && limbs_int(p.y@) == 0
    &&& !p.infinity ==> without_flags(point_bytes(p.x@, p.y@, false)) == without_flags(b)
}

/// A record reads as one point at most: the identity where bit 6 of its last byte is set, and
/// otherwise a point that is written as the same bytes, but for the two top bits.
pub proof fn law_record_reads_as(b: Seq<u8>, p: AffinePoint)
    requires
        b.len() == 64,
        b[63] < 192,
        reads_as(b, p),
    ensures
        p.infinity <==> 64 <= b[63] < 128,
        p.infinity ==> limbs_int(p.x@) == 0 && limbs_int(p.y@) == 0,
        !p.infinity && point_bytes(p.x@, p.y@, false).len() == 64 ==> {
            let w = point_bytes(p.x@, p.y@, false);
            &&& w.take(63) == b.take(63)
            &&& w[63] as int % 64 == b[63] as int % 64
        },
{
    let w = point_bytes(p.x@, p.y@, false);
    if !p.infinity && w.len() == 64 {
        let (c, d) = (without_flags(w), without_flags(b));
        assert forall|i: int| 0 <= i < 63 implies w[i] == b[i] by {
            assert(c[i] == d[i]);
        }
        assert(w.take(63) =~= b.take(63));
        assert(c[63] == d[63]);
    }
}

/// Decode scalar records: nothing if some record spells an integer that is not below the
/// modulus.
pub fn decode_scalars(b: &[u8]) -> (r: Option<Vec<Scalar>>)
    requires
        b@.len() % SCALAR_SZ as nat == 0,
    ensures
        r is Some <==> scalars_readable(b@),
        r matches Some(s) ==> holds_scalars(b@, s@) && scalars_wf(s@),
{
    let n: usize = b.len() / SCALAR_SZ;
    let mut r: Vec<Scalar> = Vec::with_capacity(n);
    for i in 0..n
        invariant
            n == b@.len() / SCALAR_SZ as nat,
            b@.len() == n * SCALAR_SZ,
            b@.len() <= usize::MAX,
            r@.len() == i,
            scalars_wf(r@),
            forall|k: int|
                0 <= k < i ==> le_int(#[trigger] record(b@, k, SCALAR_SZ as int)) < modulus(),
            forall|k: int|
                0 <= k < i ==> le_int(record(b@, k, SCALAR_SZ as int)) == (
                #[trigger] r@[k]).value(),
    {
        let rec = vstd::slice::slice_subrange(b, i * SCALAR_SZ, i * SCALAR_SZ + SCALAR_SZ);
        match fr_deserialize(rec) {
            Some(s) => r.push(s),
            None => {
                assert(!(le_int(record(b@, i as int, SCALAR_SZ as int)) < modulus()));
                return None;
            },
        }
    }
    Some(r)
}

/// Why a stream stops short.
#[derive(Clone, Copy, Debug, PartialEq, Eq)]
pub enum StreamError {
    /// A file ends before the block that is due.
    UnexpectedEof,
    /// A record cannot be read as a point or a scalar.
    InvalidData,
}

/// A multi-scalar multiplication in progress: bases and scalars stream past as records, a
/// block at a time.
pub struct MsmStream {
    n: usize,
    block: usize,
    done: usize,
    acc: Accumulator<JacobianPoint>,
    /// The bases so far.
    bases: Ghost<Seq<AffinePoint>>,
    /// The integers of the scalars so far.
    scalars: Ghost<Seq<int>>,
}

impl MsmStream {
    /// The number of bases in all.
    pub closed spec fn count(&self) -> int {
        self.n as int
    }

    pub closed spec fn block(&self) -> int {
        self.block as int
    }

    /// The bases so far.
    pub closed spec fn bases(&self) -> Seq<AffinePoint> {
        self.bases@
    }

    /// The integers of the scalars so far.
    pub closed spec fn scalars(&self) -> Seq<int> {
        self.scalars@
    }

    /// The number of bases of the next block.
    pub open spec fn due(&self) -> int {
        let left = self.count() - self.bases().len();
        if self.block() < left {
            self.block()
        } else {
            left
        }
    }

    /// The buckets hold the bases so far, each times its scalar.
    pub closed spec fn wf(&self) -> bool {
        &&& self.done == self.bases@.len()
        &&& self.done == self.scalars@.len()
        &&& self.done <= self.n
        &&& self.acc.wf()
        &&& self.acc.nbits() == 254
        &&& self.acc.sound() == bases_ok::<JacobianPoint>(self.bases@)
        &&& self.acc.total() == inner_product(
            self.scalars@,
            base_logs::<JacobianPoint>(self.bases@),
        )
    }

    /// Nothing read yet, of `n` bases and scalars.
    pub fn new(n: usize, block: usize) -> (r: Self)
        ensures
            r.wf(),
            r.count() == n,
            r.block() == block,
            r.bases() == Seq::<AffinePoint>::empty(),
            r.scalars() == Seq::<int>::empty(),
    {
        let nbits: usize = modulus_bit_size() as usize;
        let acc: Accumulator<JacobianPoint> = Accumulator::new(n, nbits);
        MsmStream {
            n,
            block,
            done: 0,
            acc,
            bases: Ghost(Seq::empty()),
            scalars: Ghost(Seq::empty()),
        }
    }

    /// The number of bases and scalars to read next; zero once all have passed.
    pub fn next_block(&self) -> (r: usize)
        requires
            self.wf(),
        ensures
            r == self.due(),
            r <= self.block(),
            self.bases().len() + r <= self.count(),
            r == self.block() || self.bases().len() + r == self.count(),
    {
        let left: usize = self.n - self.done;
        if self.block < left {
            self.block
        } else {
            left
        }
    }

    /// Route the next block's bases, given with their scalars as records, into the buckets.
    /// A record that cannot be read is an error, and nothing is routed.
    pub fn absorb(&mut self, points: &[u8], scalars: &[u8]) -> (r: Result<(), StreamError>)
        requires
            old(self).wf(),
            points@.len() == old(self).due() * POINT_SZ,
            scalars@.len() == old(self).due() * SCALAR_SZ,
        ensures
            final(self).wf(),
            final(self).count() == old(self).count(),
            final(self).block() == old(self).block(),
            r is Ok <==> points_readable(points@) && scalars_readable(scalars@),
            r is Err ==> r == Err::<(), StreamError>(StreamError::InvalidData) && *final(self)
                == *old(self),
            r is Ok ==> ({
                let done = old(self).bases().len() as int;
                &&& final(self).bases().len() == done + old(self).due()
                &&& final(self).scalars().len() == done + old(self).due()
                &&& final(self).bases().take(done) == old(self).bases()
                &&& final(self).scalars().take(done) == old(self).scalars()
                &&& forall|i: int| #![trigger final(self).bases()[done + i]]
                    0 <= i < old(self).due() ==> reads_as(
                        record(points@, i, POINT_SZ as int),
                        final(self).bases()[done + i],
                    )
                &&& forall|i: int| #![trigger final(self).scalars()[done + i]]
                    0 <= i < old(self).due() ==> final(self).scalars()[done + i] == le_int(
                        record(scalars@, i, SCALAR_SZ as int),
                    )
            }),
            forall|s: Seq<AffinePoint>| #[trigger]
                holds_points(points@, s) && bases_ok::<JacobianPoint>(s) && r is Ok
                    ==> final(self).bases() == old(self).bases() + s,
    {
        let ghost before = *self;
        let (bases, coeffs) = match (decode_points(points), decode_scalars(scalars)) {
            (Some(b), Some(s)) => (b, s),
            _ => {
                return Err(StreamError::InvalidData);
            },
        };
        let bits = scalar_bits(coeffs.as_slice());
        proof {
            assert(bits@.len() == values(bits@).len());
            assert(coeffs@.len() == scalar_values(coeffs@).len());
        }
        self.acc.absorb(bases.as_slice(), bits.as_slice());
        self.done = self.done + bases.len();
        self.bases = Ghost(before.bases@ + bases@);
        self.scalars = Ghost(before.scalars@ + values(bits@));
        proof {
            let k1 = base_logs::<JacobianPoint>(before.bases@);
            let k2 = base_logs::<JacobianPoint>(bases@);
            law_blocks_add(before.scalars@, k1, values(bits@), k2);
            assert(k1 + k2 =~= base_logs::<JacobianPoint>(self.bases@));
            lemma_bases_ok_append(before.bases@, bases@);
            let done = before.bases@.len() as int;
            assert(self.bases@.take(done) =~= before.bases@);
            assert(self.scalars@.take(done) =~= before.scalars@);
            assert forall|i: int| #![trigger self.bases@[done + i]]
                0 <= i < before.due() implies reads_as(
                record(points@, i, POINT_SZ as int),
                self.bases@[done + i],
            ) by {
                assert(self.bases@[done + i] == bases@[i]);
            }
            assert forall|i: int| #![trigger self.scalars@[done + i]]
                0 <= i < before.due() implies self.scalars@[done + i] == le_int(
                record(scalars@, i, SCALAR_SZ as int),
            ) by {
                assert(self.scalars@[done + i] == coeffs@[i].value());
            }
        }
        Ok(())
    }

    /// The result, once every base has passed.
    pub fn finish(&self) -> (r: JacobianPoint)
        requires
            self.wf(),
            self.bases().len() == self.count(),
        ensures
            r.wf(),
            bases_ok::<JacobianPoint>(self.bases()) ==> r.is(
                inner_product(self.scalars(), base_logs::<JacobianPoint>(self.bases())),
            ),
    {
        self.acc.finish()
    }
}

proof fn lemma_bases_ok_append(a: Seq<AffinePoint>, b: Seq<AffinePoint>)
    ensures
        bases_ok::<JacobianPoint>(a + b) == (bases_ok::<JacobianPoint>(a) && bases_ok::<
            JacobianPoint,
        >(b)),
{
    let c = a + b;
    if bases_ok::<JacobianPoint>(c) {
        assert forall|i: int| 0 <= i < a.len() implies is_multiple::<JacobianPoint>(
            #[trigger] a[i],
        ) by {
            assert(c[i] == a[i]);
        }
        assert forall|i: int| 0 <= i < b.len() implies is_multiple::<JacobianPoint>(
            #[trigger] b[i],
        ) by {
            assert(c[a.len() + i] == b[i]);
        }
    }
}

/// How a stream of `n` bases and scalars from two files, in blocks, ends once `done` of them
/// have passed: at the first block that a file does not hold, or that holds a record that
/// cannot be read, or at the end.
pub open spec fn stream_end(
    points: Seq<u8>,
    scalars: Seq<u8>,
    n: int,
    block: int,
    done: int,
) -> Option<StreamError>
    decreases n - done,
{
    let this = if block < n - done {
        block
    } else {
        n - done
    };
    if done >= n || block <= 0 {
        None
    } else if points.len() < (done + this) * POINT_SZ || scalars.len() < (done + this) * SCALAR_SZ {
        Some(StreamError::UnexpectedEof)
    } else if !points_readable(points.subrange(done * POINT_SZ, (done + this) * POINT_SZ))
        || !scalars_readable(scalars.subrange(done * SCALAR_SZ, (done + this) * SCALAR_SZ)) {
        Some(StreamError::InvalidData)
    } else {
        stream_end(points, scalars, n, block, done + this)
    }
}

/// A run of records of a byte string of points.
proof fn lemma_run_of_points(b: Seq<u8>, s: Seq<AffinePoint>, at: int, count: int)
    requires
        holds_points(b, s),
        0 <= at,
        0 <= count,
        at + count <= s.len(),
    ensures
        holds_points(b.subrange(at * POINT_SZ, (at + count) * POINT_SZ), s.subrange(at, at + count)),
{
    let part = b.subrange(at * POINT_SZ, (at + count) * POINT_SZ);
    let run = s.subrange(at, at + count);
    assert forall|i: int| 0 <= i < run.len() implies record(part, i, POINT_SZ as int)
        == point_bytes((#[trigger] run[i]).x@, run[i].y@, run[i].infinity) by {
        assert(run[i] == s[at + i]);
        assert(record(part, i, POINT_SZ as int) =~= record(b, at + i, POINT_SZ as int));
    }
}

/// Out-of-core multi-scalar multiplication over the records of two files: the first `n`
/// bases and scalars pass once, in order, `block` at a time.
pub fn msm_ooc(points: &[u8], scalars: &[u8], n: usize, block: usize) -> (r: Result<
    JacobianPoint,
    StreamError,
>)
    requires
        block > 0 || n == 0,
    ensures
        match stream_end(points@, scalars@, n as int, block as int, 0) {
            None => r is Ok,
            Some(e) => r == Err::<JacobianPoint, StreamError>(e),
        },
        r matches Ok(p) ==> p.wf() && forall|bases: Seq<AffinePoint>, coeffs: Seq<Scalar>|
            #[trigger] holds_points(points@.take(n * POINT_SZ), bases) && #[trigger] holds_scalars(
                scalars@.take(n * SCALAR_SZ),
                coeffs,
            ) && bases_ok::<JacobianPoint>(bases) ==> p.is(msm_log(bases, coeffs)),
{
    let point_sz = g1_serialized_size();
    let scalar_sz = fr_serialized_size();
    let points_held: usize = points.len() / point_sz;
    let scalars_held: usize = scalars.len() / scalar_sz;
    let mut stream = MsmStream::new(n, block);
    let mut done: usize = 0;
    while done < n
        invariant
            block > 0 || n == 0,
            point_sz == POINT_SZ,
            scalar_sz == SCALAR_SZ,
            points_held == points@.len() / POINT_SZ as nat,
            scalars_held == scalars@.len() / SCALAR_SZ as nat,
            points@.len() <= usize::MAX,
            scalars@.len() <= usize::MAX,
            done <= n,
            done > 0 ==> done <= points_held && done <= scalars_held,
            stream.wf(),
            stream.block() == block,
            stream.count() == n,
            stream.bases().len() == done,
            stream.scalars().len() == done,
            stream_end(points@, scalars@, n as int, block as int, 0) == stream_end(
                points@,
                scalars@,
                n as int,
                block as int,
                done as int,
            ),
            forall|bases: Seq<AffinePoint>|
                done <= bases.len() <= points_held && #[trigger] holds_points(
                    points@.take(bases.len() * POINT_SZ),
                    bases,
                ) && bases_ok::<JacobianPoint>(bases) ==> stream.bases() == bases.take(done as int),
            forall|i: int|
                0 <= i < done ==> #[trigger] stream.scalars()[i] == le_int(
                    record(scalars@, i, SCALAR_SZ as int),
                ),
        decreases n - done,
    {
        let this = stream.next_block();
        if points_held < done || points_held - done < this || scalars_held < done || scalars_held
            - done < this {
            return Err(StreamError::UnexpectedEof);
        }
        let next: usize = done + this;
        let p = vstd::slice::slice_subrange(points, done * point_sz, next * point_sz);
        let s = vstd::slice::slice_subrange(scalars, done * scalar_sz, next * scalar_sz);
        let ghost before = stream;
        match stream.absorb(p, s) {
            Ok(()) => {},
            Err(e) => {
                return Err(e);
            },
        }
        proof {
            assert forall|bases: Seq<AffinePoint>|
                next <= bases.len() <= points_held && #[trigger] holds_points(
                    points@.take(bases.len() * POINT_SZ),
                    bases,
                ) && bases_ok::<JacobianPoint>(bases) implies stream.bases() == bases.take(
                next as int,
            ) by {
                let all = points@.take(bases.len() * POINT_SZ);
                let run = bases.subrange(done as int, next as int);
                lemma_run_of_points(all, bases, done as int, this as int);
                assert(p@ =~= all.subrange(done * POINT_SZ, next * POINT_SZ));
                assert forall|i: int| 0 <= i < run.len() implies is_multiple::<JacobianPoint>(
                    #[trigger] run[i],
                ) by {
                    assert(run[i] == bases[done + i]);
                }
                assert(bases.take(done as int) + run =~= bases.take(next as int));
            }
            assert forall|i: int| 0 <= i < next implies #[trigger] stream.scalars()[i] == le_int(
                record(scalars@, i, SCALAR_SZ as int),
            ) by {
                if i < done {
                    assert(stream.scalars().take(done as int)[i] == stream.scalars()[i]);
                } else {
                    assert(stream.scalars()[done + (i - done)] == le_int(
                        record(s@, i - done, SCALAR_SZ as int),
                    ));
                    assert(record(s@, i - done, SCALAR_SZ as int) =~= record(
                        scalars@,
                        i,
                        SCALAR_SZ as int,
                    ));
                }
            }
        }
        done = next;
    }
    let r = stream.finish();
    proof {
        assert forall|bases: Seq<AffinePoint>, coeffs: Seq<Scalar>|
            #[trigger] holds_points(points@.take(n * POINT_SZ), bases) && #[trigger] holds_scalars(
                scalars@.take(n * SCALAR_SZ),
                coeffs,
            ) && bases_ok::<JacobianPoint>(bases) implies r.is(msm_log(bases, coeffs)) by {
            assert(bases.len() == n);
            assert(stream.bases() =~= bases.take(n as int));
            assert(bases.take(n as int) =~= bases);
            assert forall|i: int| 0 <= i < n implies stream.scalars()[i] == scalar_values(
                coeffs,
            )[i] by {
                assert(record(scalars@.take(n * SCALAR_SZ), i, SCALAR_SZ as int) =~= record(
                    scalars@,
                    i,
                    SCALAR_SZ as int,
                ));
                assert(coeffs[i].value() == le_int(record(scalars@, i, SCALAR_SZ as int)));
            }
            assert(stream.scalars() =~= scalar_values(coeffs));
        }
    }
    Ok(r)
}

/// A stream ends well exactly when the files hold `n` records each, all readable; the size of
/// the blocks has no say in it.
pub proof fn law_stream_ends_well(
    points: Seq<u8>,
    scalars: Seq<u8>,
    n: int,
    block: int,
)
    requires
        0 <= n,
        0 < block,
    ensures
        stream_end(points, scalars, n, block, 0) is None <==> (n == 0 || (n * POINT_SZ
            <= points.len() && n * SCALAR_SZ <= scalars.len() && points_readable(
            points.take(n * POINT_SZ),
        ) && scalars_readable(scalars.take(n * SCALAR_SZ)))),
{
    lemma_stream_ends_well(points, scalars, n, block, 0);
    if n > 0 {
        assert(points.take(n * POINT_SZ) =~= points.subrange(0, n * POINT_SZ));
        assert(scalars.take(n * SCALAR_SZ) =~= scalars.subrange(0, n * SCALAR_SZ));
    }
}

/// A stream ends at its first bad block, block `t`: for want of data where a file does not hold
/// the block, and otherwise on data that cannot be read.
pub proof fn law_stream_error(
    points: Seq<u8>,
    scalars: Seq<u8>,
    n: int,
    block: int,
    t: int,
)
    requires
        0 < block,
        0 <= t,
        t * block < n,
        64 * (t * block) <= points.len(),
        32 * (t * block) <= scalars.len(),
        points_readable(points.subrange(0, 64 * (t * block))),
        scalars_readable(scalars.subrange(0, 32 * (t * block))),
    ensures
        ({
            let from = t * block;
            let to = if (t + 1) * block < n {
                (t + 1) * block
            } else {
                n
            };
            let short = points.len() < 64 * to || scalars.len() < 32 * to;
            &&& short ==> stream_end(points, scalars, n, block, 0) == Some(
                StreamError::UnexpectedEof,
            )
            &&& !short && (!points_readable(points.subrange(64 * from, 64 * to))
                || !scalars_readable(scalars.subrange(32 * from, 32 * to))) ==> stream_end(
                points,
                scalars,
                n,
                block,
                0,
            ) == Some(StreamError::InvalidData)
        }),
{
    lemma_stream_reaches(points, scalars, n, block, t);
    lemma_mul_is_distributive_add_other_way(block, t, 1);
    lemma_mul_nonnegative(t, block);
}

/// Good blocks pass.
proof fn lemma_stream_reaches(
    points: Seq<u8>,
    scalars: Seq<u8>,
    n: int,
    block: int,
    t: int,
)
    requires
        0 < block,
        0 <= t,
        t * block < n,
        64 * (t * block) <= points.len(),
        32 * (t * block) <= scalars.len(),
        points_readable(points.subrange(0, 64 * (t * block))),
        scalars_readable(scalars.subrange(0, 32 * (t * block))),
    ensures
        stream_end(points, scalars, n, block, 0) == stream_end(
            points,
            scalars,
            n,
            block,
            t * block,
        ),
    decreases t,
{
    lemma_mul_basics(block);
    if t > 0 {
        let u = t - 1;
        let a = u * block;
        let b = t * block;
        lemma_mul_is_distributive_add_other_way(block, u, 1);
        lemma_mul_nonnegative(u, block);
        assert(b == a + block);
        let p = points.subrange(0, 64 * b);
        let s = scalars.subrange(0, 32 * b);
        assert forall|i: int| 0 <= i < points.subrange(0, 64 * a).len() / POINT_SZ as nat implies
            point_readable(#[trigger] record(points.subrange(0, 64 * a), i, POINT_SZ as int)) by {
            assert(record(points.subrange(0, 64 * a), i, POINT_SZ as int) =~= record(
                p,
                i,
                POINT_SZ as int,
            ));
        }
        assert forall|i: int| 0 <= i < scalars.subrange(0, 32 * a).len() / SCALAR_SZ as nat implies
            le_int(#[trigger] record(scalars.subrange(0, 32 * a), i, SCALAR_SZ as int))
            < modulus() by {
            assert(record(scalars.subrange(0, 32 * a), i, SCALAR_SZ as int) =~= record(
                s,
                i,
                SCALAR_SZ as int,
            ));
        }
        let part = points.subrange(a * POINT_SZ, (a + block) * POINT_SZ);
        assert forall|i: int| 0 <= i < part.len() / POINT_SZ as nat implies point_readable(
            #[trigger] record(part, i, POINT_SZ as int),
        ) by {
            assert(record(part, i, POINT_SZ as int) =~= record(p, a + i, POINT_SZ as int));
        }
        let run = scalars.subrange(a * SCALAR_SZ, (a + block) * SCALAR_SZ);
        assert forall|i: int| 0 <= i < run.len() / SCALAR_SZ as nat implies le_int(
            #[trigger] record(run, i, SCALAR_SZ as int),
        ) < modulus() by {
            assert(record(run, i, SCALAR_SZ as int) =~= record(s, a + i, SCALAR_SZ as int));
        }
        lemma_stream_reaches(points, scalars, n, block, u);
    }
}

/// What was written streams back: files of `n` points and scalars, as they are encoded, pass
/// to the end in blocks of any size.
pub proof fn law_written_files_stream(
    points: Seq<u8>,
    scalars: Seq<u8>,
    bases: Seq<AffinePoint>,
    coeffs: Seq<Scalar>,
    block: int,
)
    requires
        bases.len() == coeffs.len(),
        holds_points(points, bases),
        points_readable(points),
        holds_scalars(scalars, coeffs),
        scalars_readable(scalars),
        0 < block,
    ensures
        stream_end(points, scalars, bases.len() as int, block, 0) is None,
{
    let n = bases.len() as int;
    law_stream_ends_well(points, scalars, n, block);
    assert(points.take(n * POINT_SZ) =~= points);
    assert(scalars.take(n * SCALAR_SZ) =~= scalars);
}

proof fn lemma_stream_ends_well(
    points: Seq<u8>,
    scalars: Seq<u8>,
    n: int,
    block: int,
    done: int,
)
    requires
        0 <= done <= n,
        0 < block,
    ensures
        stream_end(points, scalars, n, block, done) is None <==> (done == n || (n * POINT_SZ
            <= points.len() && n * SCALAR_SZ <= scalars.len() && points_readable(
            points.subrange(done * POINT_SZ, n * POINT_SZ),
        ) && scalars_readable(scalars.subrange(done * SCALAR_SZ, n * SCALAR_SZ)))),
    decreases n - done,
{
    if done < n {
        let this = if block < n - done {
            block
        } else {
            n - done
        };
        let next = done + this;
        lemma_stream_ends_well(points, scalars, n, block, next);
        if n * POINT_SZ <= points.len() && n * SCALAR_SZ <= scalars.len() {
            lemma_readable_split(points, scalars, done, next, n);
        }
    }
}

/// Two runs of records are readable exactly when the run they make up is.
proof fn lemma_readable_split(points: Seq<u8>, scalars: Seq<u8>, a: int, b: int, c: int)
    requires
        0 <= a <= b <= c,
        c * POINT_SZ <= points.len(),
        c * SCALAR_SZ <= scalars.len(),
    ensures
        points_readable(points.subrange(a * POINT_SZ, c * POINT_SZ)) == (points_readable(
            points.subrange(a * POINT_SZ, b * POINT_SZ),
        ) && points_readable(points.subrange(b * POINT_SZ, c * POINT_SZ))),
        scalars_readable(scalars.subrange(a * SCALAR_SZ, c * SCALAR_SZ)) == (scalars_readable(
            scalars.subrange(a * SCALAR_SZ, b * SCALAR_SZ),
        ) && scalars_readable(scalars.subrange(b * SCALAR_SZ, c * SCALAR_SZ))),
{
    lemma_split_records(points, a, b, c, POINT_SZ as int);
    lemma_split_records(scalars, a, b, c, SCALAR_SZ as int);
    let p = points.subrange(a * POINT_SZ, c * POINT_SZ);
    let p1 = points.subrange(a * POINT_SZ, b * POINT_SZ);
    let p2 = points.subrange(b * POINT_SZ, c * POINT_SZ);
    let s = scalars.subrange(a * SCALAR_SZ, c * SCALAR_SZ);
    let s1 = scalars.subrange(a * SCALAR_SZ, b * SCALAR_SZ);
    let s2 = scalars.subrange(b * SCALAR_SZ, c * SCALAR_SZ);
    let (pz, sz) = (POINT_SZ as int, SCALAR_SZ as int);
    if points_readable(p1) && points_readable(p2) {
        assert forall|i: int| 0 <= i < p.len() / POINT_SZ as nat implies point_readable(
            #[trigger] record(p, i, pz),
        ) by {
            if i < b - a {
                assert(record(p, i, pz) == record(p1, i, pz));
            } else {
                assert(record(p, (b - a) + (i - (b - a)), pz) == record(p2, i - (b - a), pz));
            }
        }
    }
    if points_readable(p) {
        assert forall|i: int| 0 <= i < p1.len() / POINT_SZ as nat implies point_readable(
            #[trigger] record(p1, i, pz),
        ) by {
            assert(record(p, i, pz) == record(p1, i, pz));
        }
        assert forall|i: int| 0 <= i < p2.len() / POINT_SZ as nat implies point_readable(
            #[trigger] record(p2, i, pz),
        ) by {
            assert(record(p, (b - a) + i, pz) == record(p2, i, pz));
        }
    }
    if scalars_readable(s1) && scalars_readable(s2) {
        assert forall|i: int| 0 <= i < s.len() / SCALAR_SZ as nat implies le_int(
            #[trigger] record(s, i, sz),
        ) < modulus() by {
            if i < b - a {
                assert(record(s, i, sz) == record(s1, i, sz));
            } else {
                assert(record(s, (b - a) + (i - (b - a)), sz) == record(s2, i - (b - a), sz));
            }
        }
    }
    if scalars_readable(s) {
        assert forall|i: int| 0 <= i < s1.len() / SCALAR_SZ as nat implies le_int(
            #[trigger] record(s1, i, sz),
        ) < modulus() by {
            assert(record(s, i, sz) == record(s1, i, sz));
        }
        assert forall|i: int| 0 <= i < s2.len() / SCALAR_SZ as nat implies le_int(
            #[trigger] record(s2, i, sz),
        ) < modulus() by {
            assert(record(s, (b - a) + i, sz) == record(s2, i, sz));
        }
    }
}

/// The records of a run are those of its two parts.
proof fn lemma_split_records(bytes: Seq<u8>, a: int, b: int, c: int, size: int)
    requires
        0 <= a <= b <= c,
        0 < size,
        c * size <= bytes.len(),
    ensures
        forall|i: int|
            0 <= i < b - a ==> #[trigger] record(bytes.subrange(a * size, c * size), i, size)
                == record(bytes.subrange(a * size, b * size), i, size),
        forall|i: int|
            0 <= i < c - b ==> record(
                bytes.subrange(a * size, c * size),
                (b - a) + i,
                size,
            ) == #[trigger] record(bytes.subrange(b * size, c * size), i, size),
{
    lemma_mul_inequality(a, b, size);
    lemma_mul_inequality(b, c, size);
    lemma_mul_nonnegative(a, size);
    lemma_mul_is_distributive_sub_other_way(size, b, a);
    lemma_mul_is_distributive_sub_other_way(size, c, b);
    assert forall|i: int| 0 <= i < b - a implies #[trigger] record(
        bytes.subrange(a * size, c * size),
        i,
        size,
    ) == record(bytes.subrange(a * size, b * size), i, size) by {
        lemma_cell(i, 0, b - a, size);
        assert(record(bytes.subrange(a * size, c * size), i, size) =~= record(
            bytes.subrange(a * size, b * size),
            i,
            size,
        ));
    }
    assert forall|i: int| 0 <= i < c - b implies record(
        bytes.subrange(a * size, c * size),
        (b - a) + i,
        size,
    ) == #[trigger] record(bytes.subrange(b * size, c * size), i, size) by {
        lemma_cell(i, 0, c - b, size);
        lemma_mul_is_distributive_add_other_way(size, b - a, i);
        assert(record(bytes.subrange(a * size, c * size), (b - a) + i, size) =~= record(
            bytes.subrange(b * size, c * size),
            i,
            size,
        ));
    }
}

/// `AffineRepr::generator` of `G1Affine`: one times the generator.
#[verifier::external_body]
fn g1_generator() -> (r: AffinePoint)
    ensures
        r.wf(),
        r@ == affine_multiple(1),
{
    let g = ark_bn254::G1Affine::generator();
    AffinePoint { x: g.x.0.0, y: g.y.0.0, infinity: g.infinity }
}

/// Sample inputs, one pair at a time so that any number of them takes constant memory: the
/// bases `g, 2g, 3g, ...` and the scalars `1, 2, 3, ...`.
pub struct Samples {
    generator: AffinePoint,
    acc: JacobianPoint,
    next: u64,
}

impl Samples {
    /// The number of the next pair, from one.
    pub closed spec fn number(&self) -> int {
        self.next as int
    }

    pub closed spec fn wf(&self) -> bool {
        &&& self.generator.wf()
        &&& self.generator@ == affine_multiple(1)
        &&& self.acc.wf()
        &&& self.acc.is(self.next as int)
    }

    /// Before the first pair.
    pub fn new() -> (r: Self)
        ensures
            r.wf(),
            r.number() == 1,
    {
        let generator = g1_generator();
        let zero: JacobianPoint = JacobianPoint::identity();
        let acc = zero.plus_base(&generator);
        proof {
            assert(JacobianPoint::base_is(generator, 1));
            assert(acc.is(1));
        }
        Samples { generator, acc, next: 1 }
    }

    /// The next pair.
    pub fn next_pair(&mut self) -> (r: (AffinePoint, Scalar))
        requires
            old(self).wf(),
            old(self).number() < u64::MAX,
        ensures
            final(self).wf(),
            final(self).number() == old(self).number() + 1,
            r.0.wf(),
            r.0@ == affine_multiple(old(self).number()),
            r.1.wf(),
            r.1.value() == old(self).number(),
    {
        let point = self.acc.into_affine();
        let scalar = Scalar { limbs: [self.next, 0, 0, 0] };
        let next = self.acc.plus_base(&self.generator);
        proof {
            assert(JacobianPoint::base_is(self.generator, 1));
            reveal(modulus);
            assert(self.acc.is(self.next as int));
            assert(next.is(self.next + 1));
        }
        self.acc = next;
        self.next = self.next + 1;
        (point, scalar)
    }
}

} // verus!
