use ark_bn254::{Fr, G1Affine, G1Projective};
use ark_ec::{AffineRepr, CurveGroup};
use ark_ff::{BigInt, PrimeField};
use ark_serialize::{CanonicalDeserialize, CanonicalSerialize};
use ark_std::{UniformRand, Zero};
use snark_stream::msm::{
    decode_points, decode_scalars, digit, encode_points, encode_scalars, msm_incore, msm_ooc,
    msm_pippenger, AffinePoint, JacobianPoint, MsmStream, Samples, Scalar, StreamError,
};

fn point(p: &G1Affine) -> AffinePoint {
    AffinePoint {
        x: p.x.0 .0,
        y: p.y.0 .0,
        infinity: p.infinity,
    }
}

fn scalar(s: &Fr) -> Scalar {
    Scalar {
        limbs: s.into_bigint().0,
    }
}

fn ark_point(p: &AffinePoint) -> G1Affine {
    G1Affine {
        x: ark_bn254::Fq::new_unchecked(BigInt(p.x)),
        y: ark_bn254::Fq::new_unchecked(BigInt(p.y)),
        infinity: p.infinity,
    }
}

fn ark_jacobian(p: &JacobianPoint) -> G1Projective {
    G1Projective::new_unchecked(
        ark_bn254::Fq::new_unchecked(BigInt(p.x)),
        ark_bn254::Fq::new_unchecked(BigInt(p.y)),
        ark_bn254::Fq::new_unchecked(BigInt(p.z)),
    )
}

fn points(p: &[G1Affine]) -> Vec<AffinePoint> {
    p.iter().map(point).collect()
}

fn scalars(s: &[Fr]) -> Vec<Scalar> {
    s.iter().map(scalar).collect()
}

#[test]
fn pippenger_matches_arkworks() {
    let mut rng = ark_std::test_rng();
    for &n in &[0usize, 1, 2, 3, 4, 8, 31, 100, 257] {
        let bases: Vec<G1Affine> = (0..n).map(|_| G1Affine::rand(&mut rng)).collect();
        let coeffs: Vec<Fr> = (0..n).map(|_| Fr::rand(&mut rng)).collect();
        let (b, s) = (points(&bases), scalars(&coeffs));
        assert_eq!(
            ark_jacobian(&msm_pippenger(&b, &s)),
            ark_jacobian(&msm_incore(&b, &s)),
            "mismatch at n={n}"
        );
    }
}

#[test]
fn ooc_matches_arkworks() {
    let mut rng = ark_std::test_rng();
    for &n in &[1usize, 2, 8, 100, 257] {
        let bases: Vec<G1Affine> = (0..n).map(|_| G1Affine::rand(&mut rng)).collect();
        let coeffs: Vec<Fr> = (0..n).map(|_| Fr::rand(&mut rng)).collect();
        let (b, s) = (points(&bases), scalars(&coeffs));
        let (bf, sf) = (encode_points(&b), encode_scalars(&s));
        let got = msm_ooc(&bf, &sf, n, 7).unwrap();
        assert_eq!(
            ark_jacobian(&got),
            ark_jacobian(&msm_incore(&b, &s)),
            "mismatch at n={n}"
        );
    }
}

#[test]
fn the_samples_sum_to_the_multiple_they_should() {
    // Sum_i i * (i * g) for i = 1..=6 is 91 g.
    let mut source = Samples::new();
    let mut b = vec![];
    let mut s = vec![];
    for i in 1..=6u64 {
        let (p, k) = source.next_pair();
        assert_eq!(
            ark_point(&p),
            (G1Affine::generator() * Fr::from(i)).into_affine()
        );
        assert_eq!(k, Scalar { limbs: [i, 0, 0, 0] });
        b.push(p);
        s.push(k);
    }
    let want = G1Affine::generator() * Fr::from(91);
    assert_eq!(ark_jacobian(&msm_pippenger(&b, &s)), want);
    assert_eq!(ark_jacobian(&msm_incore(&b, &s)), want);
    let (bf, sf) = (encode_points(&b), encode_scalars(&s));
    for block in [1usize, 2, 5, 6, 7] {
        assert_eq!(ark_jacobian(&msm_ooc(&bf, &sf, 6, block).unwrap()), want);
    }
    // The first four alone.
    assert_eq!(
        ark_jacobian(&msm_ooc(&bf, &sf, 4, 3).unwrap()),
        G1Affine::generator() * Fr::from(30)
    );
    assert_eq!(ark_jacobian(&msm_ooc(&[], &[], 0, 1).unwrap()), G1Projective::zero());
}

#[test]
fn a_point_and_its_negative_cancel() {
    let g = G1Affine::generator();
    let one = Scalar { limbs: [1, 0, 0, 0] };
    let r = msm_pippenger(&points(&[g, -g]), &[one, one]);
    assert_eq!(ark_jacobian(&r), G1Projective::zero());
    assert!(r.into_affine().infinity);
    let twice = msm_pippenger(&points(&[g, g, G1Affine::identity()]), &[one, one, one]);
    assert_eq!(ark_point(&twice.into_affine()), (g + g).into_affine());
}

#[test]
fn records_are_the_canonical_serialization() {
    let mut rng = ark_std::test_rng();
    let mut p: Vec<G1Affine> = (0..5).map(|_| G1Affine::rand(&mut rng)).collect();
    p.push(G1Affine::identity());
    let s: Vec<Fr> = (0..5).map(|_| Fr::rand(&mut rng)).collect();
    let (pb, sb) = (encode_points(&points(&p)), encode_scalars(&scalars(&s)));
    assert_eq!(pb.len(), 6 * 64);
    assert_eq!(sb.len(), 5 * 32);
    for (i, x) in p.iter().enumerate() {
        let mut want = vec![];
        x.serialize_uncompressed(&mut want).unwrap();
        assert_eq!(&pb[i * 64..(i + 1) * 64], &want[..]);
    }
    assert_eq!(
        Fr::deserialize_uncompressed(&sb[32..64]).unwrap(),
        s[1]
    );
    assert_eq!(decode_points(&pb).unwrap(), points(&p));
    assert_eq!(decode_scalars(&sb).unwrap(), scalars(&s));
}

#[test]
fn unreadable_records_are_refused() {
    let g = points(&[G1Affine::generator()]);
    let good = encode_points(&g);
    // Both flags set; a coordinate that is not below the modulus.
    let mut flags = good.clone();
    flags[63] |= 0xc0;
    assert!(decode_points(&flags).is_none());
    let mut x = good.clone();
    for b in x[..32].iter_mut() {
        *b = 0xff;
    }
    assert!(decode_points(&x).is_none());
    let mut y = good.clone();
    for b in y[32..64].iter_mut() {
        *b = 0x3f;
    }
    assert!(decode_points(&y).is_none());
    assert!(decode_scalars(&[0xff; 32]).is_none());
    // The infinity flag alone reads as the identity.
    let mut inf = vec![0u8; 64];
    inf[63] = 0x40;
    assert_eq!(decode_points(&inf).unwrap(), points(&[G1Affine::identity()]));
}

#[test]
fn a_stream_stops_at_the_first_bad_block() {
    let mut source = Samples::new();
    let pairs: Vec<_> = (0..4).map(|_| source.next_pair()).collect();
    let b: Vec<AffinePoint> = pairs.iter().map(|p| p.0).collect();
    let s: Vec<Scalar> = pairs.iter().map(|p| p.1).collect();
    let (bf, sf) = (encode_points(&b), encode_scalars(&s));
    assert_eq!(
        msm_ooc(&bf[..255], &sf, 4, 2),
        Err(StreamError::UnexpectedEof)
    );
    assert_eq!(
        msm_ooc(&bf, &sf[..127], 4, 4),
        Err(StreamError::UnexpectedEof)
    );
    let mut bad = sf.clone();
    for x in bad[96..].iter_mut() {
        *x = 0xff;
    }
    assert_eq!(msm_ooc(&bf, &bad, 4, 2), Err(StreamError::InvalidData));
    assert!(msm_ooc(&bf, &bad, 3, 2).is_ok());
    // A bad record in an early block comes before the end of a short file.
    let mut early = bf[..128].to_vec();
    early[63] = 0xff;
    assert_eq!(msm_ooc(&early, &sf, 4, 2), Err(StreamError::InvalidData));

    let mut stream = MsmStream::new(4, 3);
    assert_eq!(stream.next_block(), 3);
    assert_eq!(
        stream.absorb(&bf[..192], &[0xff; 96]),
        Err(StreamError::InvalidData)
    );
    // Nothing was routed: the block is still due.
    assert_eq!(stream.next_block(), 3);
    stream.absorb(&bf[..192], &sf[..96]).unwrap();
    assert_eq!(stream.next_block(), 1);
    stream.absorb(&bf[192..], &sf[96..]).unwrap();
    assert_eq!(stream.next_block(), 0);
    assert_eq!(
        ark_jacobian(&stream.finish()),
        G1Affine::generator() * Fr::from(30)
    );
}

#[test]
fn digits_are_bit_fields_of_bits() {
    // 0b1011_0110, lowest bit first.
    let bits = [false, true, true, false, true, true, false, true];
    assert_eq!(digit(&bits, 0, 3), 0b110);
    assert_eq!(digit(&bits, 1, 3), 0b110);
    assert_eq!(digit(&bits, 2, 3), 0b10);
    assert_eq!(digit(&bits, 3, 3), 0);
    assert_eq!(digit(&bits, 0, 16), 0b1011_0110);
    // Any width up to a machine word, and any window: bits past the end are zero.
    assert_eq!(digit(&bits, 1, 5), 0b101);
    assert_eq!(digit(&bits, 0, 64), 0b1011_0110);
    assert_eq!(digit(&bits, 1, 0), 0);
    assert_eq!(digit(&bits, 1000, 16), 0);
    assert_eq!(digit(&bits, usize::MAX, 1), 0);
    let spelled: usize = (0..3).map(|w| digit(&bits, w, 3) << (3 * w)).sum();
    assert_eq!(spelled, 0b1011_0110);
}
