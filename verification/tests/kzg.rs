use std::borrow::Cow;

use ark_bn254::{Bn254, Fr, G1Affine};
use ark_ff::{BigInt, PrimeField};
use ark_poly::univariate::DensePolynomial;
use ark_poly::DenseUVPolynomial;
use ark_poly_commit::kzg10::{Powers, KZG10};
use ark_std::test_rng;
use snark_stream::kzg::{commit_incore, commit_ooc};
use snark_stream::msm::{encode_points, encode_scalars, AffinePoint, Scalar, StreamError};

type Kzg = KZG10<Bn254, DensePolynomial<Fr>>;

fn points(p: &[G1Affine]) -> Vec<AffinePoint> {
    p.iter()
        .map(|p| AffinePoint {
            x: p.x.0 .0,
            y: p.y.0 .0,
            infinity: p.infinity,
        })
        .collect()
}

fn scalars(s: &[Fr]) -> Vec<Scalar> {
    s.iter()
        .map(|s| Scalar {
            limbs: s.into_bigint().0,
        })
        .collect()
}

fn ark_point(p: &AffinePoint) -> G1Affine {
    G1Affine {
        x: ark_bn254::Fq::new_unchecked(BigInt(p.x)),
        y: ark_bn254::Fq::new_unchecked(BigInt(p.y)),
        infinity: p.infinity,
    }
}

#[test]
fn commit_ooc_matches_kzg10() {
    let mut rng = test_rng();

    for &deg in &[1usize, 2, 7, 64, 255] {
        let pp = Kzg::setup(deg, false, &mut rng).unwrap();
        let n = deg + 1;

        let coeffs: Vec<Fr> = (0..n).map(|i| Fr::from(i as u64 + 1)).collect();
        let poly = DensePolynomial::from_coefficients_vec(coeffs.clone());

        let powers = Powers::<Bn254> {
            powers_of_g: Cow::Borrowed(&pp.powers_of_g),
            powers_of_gamma_g: Cow::Owned(pp.powers_of_gamma_g.values().cloned().collect()),
        };
        let (comm, _) = Kzg::commit(&powers, &poly, None, None).unwrap();

        let srs = points(&pp.powers_of_g[..n]);
        let srs_file = encode_points(&srs);
        let coeff_file = encode_scalars(&scalars(&coeffs));

        let got = commit_ooc(&srs_file, &coeff_file, n, 5).unwrap();
        assert_eq!(
            ark_point(&got),
            comm.0,
            "out-of-core KZG != arkworks KZG10 at deg={deg}"
        );
        // The in-core commitment is the same point, limb for limb.
        assert_eq!(commit_incore(&srs, &scalars(&coeffs)), got);
    }
}

#[test]
fn a_commitment_to_a_short_file_fails() {
    assert_eq!(
        commit_ooc(&[0u8; 64], &[0u8; 31], 1, 1),
        Err(StreamError::UnexpectedEof)
    );
    assert_eq!(
        commit_ooc(&[0xff; 64], &[0u8; 32], 1, 1),
        Err(StreamError::InvalidData)
    );
    // No coefficients: the identity.
    assert!(commit_ooc(&[], &[], 0, 1).unwrap().infinity);
}
