//! Out-of-core KZG polynomial commitment.
//!
//! A commitment to `f(X) = Sum_i a_i X^i` is `Sum_i a_i * [tau^i] g`: the multi-scalar
//! multiplication of the coefficients against the powers of tau. Streaming that sum gives the
//! commitment that an in-core prover computes.

use vstd::prelude::*;

use crate::msm::{
    affine_multiple, holds_points, holds_scalars, limbs_int, msm_incore, msm_log, msm_ooc,
    points_reduced, scalar_values, scalars_wf, stream_end, AffinePoint, JacobianPoint, Scalar,
    StreamError, POINT_SZ, SCALAR_SZ,
};
use crate::pippenger::{base_log, base_logs, bases_ok, is_multiple, Group};
use crate::sums::{lemma_sum_eq, sum};

verus! {

/// The commitment to coefficients against an SRS, in affine form.
pub open spec fn commitment(srs: Seq<AffinePoint>, coeffs: Seq<Scalar>) -> (
    Seq<u64>,
    Seq<u64>,
    bool,
) {
    affine_multiple(msm_log(srs, coeffs))
}

/// A commitment against points that are multiples of the generator is, in its one affine form,
/// the sum of the points' multiples, each times the integer of its own coefficient.
pub proof fn law_commitment_is_sum(srs: Seq<AffinePoint>, coeffs: Seq<Scalar>) -> (k: Seq<int>)
    requires
        srs.len() == coeffs.len(),
        forall|i: int|
            0 <= i < srs.len() ==> exists|k: int| (#[trigger] srs[i])@ == affine_multiple(k),
    ensures
        bases_ok::<JacobianPoint>(srs),
        k.len() == srs.len(),
        forall|i: int| 0 <= i < k.len() ==> srs[i]@ == affine_multiple(#[trigger] k[i]),
        commitment(srs, coeffs) == affine_multiple(
            sum(|i: int| limbs_int(coeffs[i].limbs@) * k[i], srs.len()),
        ),
{
    let k = base_logs::<JacobianPoint>(srs);
    let v = scalar_values(coeffs);
    assert forall|i: int| 0 <= i < srs.len() implies is_multiple::<JacobianPoint>(#[trigger] srs[i])
        && srs[i]@ == affine_multiple(k[i]) by {
        let j = choose|j: int| srs[i]@ == affine_multiple(j);
        assert(JacobianPoint::base_is(srs[i], j));
        assert(JacobianPoint::base_is(srs[i], base_log::<JacobianPoint>(srs[i])));
    }
    lemma_sum_eq(|i: int| v[i] * k[i], |i: int| limbs_int(coeffs[i].limbs@) * k[i], srs.len());
    k
}

/// Out-of-core KZG commitment: the first `num_coeffs` points of the SRS file and the
/// coefficients of the other file pass once, `block` at a time.
pub fn commit_ooc(srs: &[u8], coeffs: &[u8], num_coeffs: usize, block: usize) -> (r: Result<
    AffinePoint,
    StreamError,
>)
    requires
        block > 0 || num_coeffs == 0,
    ensures
        match stream_end(srs@, coeffs@, num_coeffs as int, block as int, 0) {
            None => r is Ok,
            Some(e) => r == Err::<AffinePoint, StreamError>(e),
        },
        r matches Ok(c) ==> c.wf() && forall|points: Seq<AffinePoint>, scalars: Seq<Scalar>|
            #[trigger] holds_points(srs@.take(num_coeffs * POINT_SZ), points)
                && #[trigger] holds_scalars(coeffs@.take(num_coeffs * SCALAR_SZ), scalars)
                && bases_ok::<JacobianPoint>(points) ==> c@ == commitment(points, scalars),
{
    match msm_ooc(srs, coeffs, num_coeffs, block) {
        Ok(p) => Ok(p.into_affine()),
        Err(e) => Err(e),
    }
}

/// In-core KZG commitment over an explicit SRS.
pub fn commit_incore(srs: &[AffinePoint], coeffs: &[Scalar]) -> (r: AffinePoint)
    requires
        srs@.len() == coeffs@.len(),
        points_reduced(srs@),
        scalars_wf(coeffs@),
    ensures
        r.wf(),
        bases_ok::<JacobianPoint>(srs@) ==> r@ == commitment(srs@, coeffs@),
{
    msm_incore(srs, coeffs).into_affine()
}

} // verus!
