use halo2curves::bn256::{Fr, G1Affine, G1};
use halo2curves::ff::Field;
use halo2curves::group::prime::PrimeCurveAffine;
use halo2curves::group::{Curve, Group};
use halo2curves::serde::SerdeObject;
use snark_stream::halo2::msm::{
    base_size, decode_bases, digit, encode_bases, is_proper, msm_incore, msm_ooc_bases,
    msm_pippenger, try_msm_incore, BasesStream,
};
use snark_stream::pippenger::{fill_threads, window_bits};

fn sample(n: usize) -> (Vec<G1Affine>, Vec<Fr>) {
    let g = G1::generator();
    let mut acc = g;
    let mut bases = Vec::with_capacity(n);
    let mut scalars = Vec::with_capacity(n);
    let mut x = Fr::from(7);
    for _ in 0..n {
        bases.push(acc.to_affine());
        acc += g;
        x = x * Fr::from(1103515245u64) + Fr::from(12345u64);
        scalars.push(x);
    }
    (bases, scalars)
}

#[test]
fn pippenger_matches_msm_best() {
    for &n in &[0usize, 1, 2, 3, 4, 8, 31, 100, 257] {
        let (bases, scalars) = sample(n);
        assert_eq!(
            msm_pippenger(&bases, &scalars),
            msm_incore(&bases, &scalars),
            "mismatch at n={n}"
        );
    }
}

#[test]
fn ooc_matches_msm_best() {
    for &n in &[1usize, 2, 8, 100, 257] {
        let (bases, scalars) = sample(n);
        let file = encode_bases(&bases);
        let got = msm_ooc_bases(&file, &scalars, 7).unwrap();
        assert_eq!(got, msm_incore(&bases, &scalars), "mismatch at n={n}");
    }
}

#[test]
fn the_sum_is_the_multiple_it_should_be() {
    // Sum_i i * (i * g) for i = 1..=5 is 55 g.
    let (bases, _) = sample(5);
    let scalars: Vec<Fr> = (1..=5u64).map(Fr::from).collect();
    let want = G1::generator() * Fr::from(55);
    assert_eq!(msm_pippenger(&bases, &scalars), want);
    assert_eq!(msm_incore(&bases, &scalars), want);
    assert_eq!(
        msm_ooc_bases(&encode_bases(&bases), &scalars, 2).unwrap(),
        want
    );
}

#[test]
fn negative_scalars_and_identity_bases() {
    let g = G1Affine::generator();
    let id = G1Affine::identity();
    let minus_one = -Fr::ONE;
    assert_eq!(
        msm_pippenger(&[g, g, id], &[minus_one, Fr::ONE, Fr::from(9)]),
        G1::identity()
    );
    assert_eq!(
        msm_pippenger(&[g], &[minus_one]),
        -G1::generator()
    );
}

#[test]
fn blocks_of_any_size_give_the_same_point() {
    let (bases, scalars) = sample(20);
    let file = encode_bases(&bases);
    let want = msm_incore(&bases, &scalars);
    for block in [1usize, 3, 19, 20, 21, 1000] {
        assert_eq!(msm_ooc_bases(&file, &scalars, block).unwrap(), want);
    }
    // So does any order.
    let (mut b, mut s) = (bases.clone(), scalars.clone());
    b.reverse();
    s.reverse();
    assert_eq!(msm_pippenger(&b, &s), want);
}

#[test]
fn the_stream_asks_for_each_block_in_turn() {
    let (bases, scalars) = sample(5);
    let file = encode_bases(&bases);
    let mut stream = BasesStream::new(&scalars, 2);
    let mut at = 0;
    let mut asked = vec![];
    loop {
        let n = stream.next_block();
        if n == 0 {
            break;
        }
        asked.push(n);
        stream.absorb(&file[at * 64..(at + n) * 64]);
        at += n;
    }
    assert_eq!(asked, vec![2, 2, 1]);
    assert_eq!(stream.finish(), msm_incore(&bases, &scalars));
}

#[test]
fn a_short_base_file_is_refused() {
    let (bases, scalars) = sample(3);
    let file = encode_bases(&bases);
    assert!(msm_ooc_bases(&file[..191], &scalars, 2).is_none());
    assert!(msm_ooc_bases(&file, &scalars, 2).is_some());
    // Only the first records count.
    assert_eq!(
        msm_ooc_bases(&file, &scalars[..2], 2).unwrap(),
        msm_incore(&bases[..2], &scalars[..2])
    );
    assert_eq!(msm_ooc_bases(&[], &[], 1).unwrap(), G1::identity());
}

#[test]
fn base_records_read_back() {
    let (bases, _) = sample(4);
    let file = encode_bases(&bases);
    assert_eq!(base_size(), 64);
    assert_eq!(file.len(), 4 * 64);
    assert_eq!(&file[64..128], &bases[1].to_raw_bytes()[..]);
    assert_eq!(decode_bases(&file), bases);
}

#[test]
fn bases_are_told_apart() {
    let (bases, _) = sample(1);
    assert!(is_proper(&bases[0]));
    assert!(!is_proper(&G1Affine::identity()));
    // Raw ones are a point off the curve.
    let off = decode_bases(&[1u8; 64]);
    assert!(!is_proper(&off[0]));
}

#[test]
fn the_in_core_product_is_refused_where_it_is_not_defined() {
    let (bases, scalars) = sample(3);
    assert!(try_msm_incore(&bases, &scalars[..2]).is_none());
    assert_eq!(
        try_msm_incore(&bases, &scalars).unwrap(),
        msm_pippenger(&bases, &scalars)
    );
    // Past the bound every base has to be proper.
    let n = 8104;
    let g = G1Affine::generator();
    let ones = vec![Fr::ONE; n];
    let mut many = vec![g; n];
    assert_eq!(
        try_msm_incore(&many, &ones).unwrap(),
        G1::generator() * Fr::from(n as u64)
    );
    many[n - 1] = G1Affine::identity();
    assert!(try_msm_incore(&many, &ones).is_none());
    assert!(try_msm_incore(&many[..n - 1], &ones[..n - 1]).is_some());
}

#[test]
fn digits_are_bit_fields() {
    // 0xdcba, little-endian.
    let repr = [0xbau8, 0xdc];
    assert_eq!(digit(&repr, 0, 4), 0xa);
    assert_eq!(digit(&repr, 1, 4), 0xb);
    assert_eq!(digit(&repr, 2, 4), 0xc);
    assert_eq!(digit(&repr, 3, 4), 0xd);
    assert_eq!(digit(&repr, 4, 4), 0);
    assert_eq!(digit(&repr, 0, 16), 0xdcba);
    assert_eq!(digit(&repr, 1, 5), (0xdcba >> 5) & 31);
    assert_eq!(digit(&repr, 3, 5), 1);
    assert_eq!(digit(&[0xb6, 0x01], 1, 5), 13);
    // Any width up to a machine word, and any window: bits past the end are zero.
    assert_eq!(digit(&[0xff; 9], 0, 64), usize::MAX);
    assert_eq!(digit(&[0xff; 9], 1, 64), 0xff);
    assert_eq!(digit(&[0xff; 40], 300, 1), 1);
    assert_eq!(digit(&repr, 1, 0), 0);
    assert_eq!(digit(&repr, 4096, 16), 0);
    assert_eq!(digit(&repr, usize::MAX, 1), 0);
    let spelled: usize = (0..4).map(|w| digit(&repr, w, 5) << (5 * w)).sum();
    assert_eq!(spelled, 0xdcba);
}

#[test]
fn the_fill_takes_a_handful_of_threads() {
    let got: Vec<usize> = [0usize, 1, 5, 8, 9, 64].map(fill_threads).to_vec();
    assert_eq!(got, vec![1, 1, 5, 8, 8, 8]);
}

#[test]
fn window_widths_follow_the_logarithm() {
    for n in 0..4 {
        assert_eq!(window_bits(n), 2);
    }
    let large = [442_413usize, 442_414, 1_202_604, 1_202_605, 3_269_017, 3_269_018, 1 << 30];
    for n in (4..200_000usize).chain(large) {
        let want = ((n as f64).ln().ceil() as usize).clamp(4, 16);
        assert_eq!(window_bits(n), want, "n={n}");
    }
}
