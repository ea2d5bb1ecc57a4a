use halo2curves::bn256::Fr;
use halo2curves::ff::{Field, PrimeField, WithSmallOrderMulGroup};
use halo2curves::fft::best_fft;
use halo2curves::serde::SerdeObject;
use snark_stream::field::{all_canonical, is_canonical, is_primitive_root};
use snark_stream::halo2::disk::{window_runs, DiskCoset};
use snark_stream::halo2::fft::{coeff_to_extended, distribute_powers_zeta, four_step};
use snark_stream::halo2::records::{decode_raw, decode_repr, encode_raw, encode_repr};
use snark_stream::halo2::scratch::{coeff_to_extended_ooc, four_step_ooc, read_to_vec, Scratch};
use snark_stream::halo2::tiled::TileSpec;
use snark_stream::interpolate::interpolate;

/// A primitive `2^log_n`-th root of unity.
fn omega(log_n: u32) -> Fr {
    Fr::ROOT_OF_UNITY.pow_vartime([1u64 << (Fr::S - log_n)])
}

fn lcg(n: usize, seed: u64, a: u64, c: u64) -> Vec<Fr> {
    let mut x = Fr::from(seed);
    (0..n)
        .map(|_| {
            x = x * Fr::from(a) + Fr::from(c);
            x
        })
        .collect()
}

fn sample(n: usize) -> Vec<Fr> {
    lcg(n, 12345, 1103515245, 12345)
}

#[test]
fn four_step_matches_best_fft() {
    for log_n in [1u32, 2, 3, 4, 5, 6, 7, 8, 10, 12] {
        let n = 1usize << log_n;
        let w = omega(log_n);
        let x = sample(n);
        let mut direct = x.clone();
        best_fft(&mut direct, w, log_n);
        let got = four_step(&x, w, log_n as usize);
        assert_eq!(got, direct, "four_step != best_fft at log_n={log_n}");
    }
}

#[test]
fn four_step_ooc_matches_best_fft() {
    for log_n in [2u32, 3, 5, 6, 9, 12] {
        let n = 1usize << log_n;
        let w = omega(log_n);
        let x = sample(n);
        let mut direct = x.clone();
        best_fft(&mut direct, w, log_n);
        let got = four_step_ooc(&x, w, log_n as usize, 4);
        assert_eq!(got, direct, "four_step_ooc != best_fft at log_n={log_n}");
    }
}

#[test]
fn four_step_of_one_and_two_elements() {
    assert_eq!(four_step(&[Fr::from(9)], Fr::ONE, 0), vec![Fr::from(9)]);
    // The transform of (3, 5) with root -1 is (8, -2).
    let minus_one = -Fr::ONE;
    let want = vec![Fr::from(8), -Fr::from(2)];
    assert_eq!(four_step(&[Fr::from(3), Fr::from(5)], minus_one, 1), want);
    assert_eq!(four_step_ooc(&[Fr::from(3), Fr::from(5)], minus_one, 1, 1), want);
}

#[test]
fn extended_values_out_of_core() {
    for (k, extended_k) in [(2usize, 4usize), (3, 5), (5, 7), (6, 6)] {
        let coeffs = sample(1 << k);
        let zeta = <Fr as WithSmallOrderMulGroup<3>>::ZETA;
        let w = omega(extended_k as u32);

        // Shift by the coset, pad, transform.
        let mut direct: Vec<Fr> = coeffs
            .iter()
            .enumerate()
            .map(|(i, c)| *c * zeta.pow_vartime([i as u64]))
            .collect();
        direct.resize(1 << extended_k, Fr::ZERO);
        best_fft(&mut direct, w, extended_k as u32);

        assert_eq!(coeff_to_extended(&coeffs, zeta, w, extended_k), direct);
        let file = coeff_to_extended_ooc(&coeffs, zeta, w, k, extended_k, 3);
        let bytes = file.into_bytes();
        assert_eq!(bytes, encode_raw(&direct));
        assert_eq!(read_to_vec(&bytes, 1 << extended_k).unwrap(), direct);
    }
}

#[test]
fn the_coset_shift_has_period_three() {
    let zeta = <Fr as WithSmallOrderMulGroup<3>>::ZETA;
    let ones = vec![Fr::ONE; 7];
    let got = distribute_powers_zeta(&ones, zeta);
    let z2 = zeta * zeta;
    assert_eq!(got, vec![Fr::ONE, zeta, z2, Fr::ONE, zeta, z2, Fr::ONE]);
}

#[test]
fn roots_of_unity_are_told_apart() {
    for log_n in [0u32, 1, 2, 5, 28] {
        assert!(is_primitive_root(&omega(log_n), log_n));
    }
    assert!(!is_primitive_root(&omega(4), 5));
    assert!(!is_primitive_root(&Fr::from(2), 3));
    assert!(is_primitive_root(&Fr::from(2), 0));
}

#[test]
fn disk_window_matches_tilespec() {
    let sample = |n| lcg(n, 7, 6364136223846793005, 1442695040888963407);
    for &(size, rot_scale, max_rot) in &[(64usize, 4i32, 3usize), (96, 2, 3), (256, 8, 5)] {
        let spec = TileSpec::new(size, rot_scale, max_rot);
        let coset = sample(size);
        let disk = DiskCoset::create(&coset);
        assert_eq!(disk.size(), size);

        for &tile in &[1usize, 7, 16, 31, size] {
            let mut s = 0;
            while s < size {
                let len = tile.min(size - s);
                let wl = spec.window_len(len);
                let want = spec.window(&coset, s, len);
                let got = disk.window(s, spec.halo, wl).unwrap();
                assert_eq!(want, got, "size={size} tile={tile} s={s}");
                s += len;
            }
        }
    }
}

#[test]
fn tiled_window_matches_direct() {
    let sample = |n| lcg(n, 99, 1103515245, 12345);
    let rotations: [i32; 6] = [0, 1, -1, 2, -3, 3];
    for &(size, rot_scale, max_rot) in &[(64usize, 4i32, 3usize), (96, 2, 3), (256, 8, 3)] {
        let spec = TileSpec::new(size, rot_scale, max_rot);
        let coset = sample(size);
        let coef = sample(rotations.len());

        let direct: Vec<Fr> = (0..size)
            .map(|idx| {
                rotations
                    .iter()
                    .zip(&coef)
                    .fold(Fr::ZERO, |acc, (&rot, &c)| {
                        acc + c * coset[spec.rotation_idx(idx, rot)]
                    })
            })
            .collect();

        for &tile in &[1usize, 7, 16, 31, size] {
            let mut tiled = vec![Fr::ZERO; size];
            let mut s = 0;
            while s < size {
                let len = tile.min(size - s);
                let win = spec.window(&coset, s, len);
                for i in 0..len {
                    tiled[s + i] = rotations
                        .iter()
                        .zip(&coef)
                        .fold(Fr::ZERO, |acc, (&rot, &c)| acc + c * win[spec.local(i, rot)]);
                }
                s += len;
            }
            assert_eq!(direct, tiled, "size={size} rot_scale={rot_scale} tile={tile}");
        }
    }
}

#[test]
fn a_window_is_one_or_two_runs() {
    let runs = |start, halo, wl| -> Vec<(usize, usize)> {
        window_runs(16, start, halo, wl)
            .iter()
            .map(|r| (r.off, r.count))
            .collect()
    };
    assert_eq!(runs(4, 2, 8), vec![(2, 8)]);
    assert_eq!(runs(0, 2, 8), vec![(14, 2), (0, 6)]);
    assert_eq!(runs(12, 2, 8), vec![(10, 6), (0, 2)]);
    assert_eq!(runs(3, 3, 0), vec![]);
    // Longer than the domain: it wraps more than once.
    assert_eq!(runs(0, 2, 20), vec![(14, 2), (0, 16), (0, 2)]);
}

#[test]
fn reading_past_the_end_of_a_file_fails() {
    let coset = sample(4);
    let bytes = encode_raw(&coset);
    let c = DiskCoset::open(bytes.clone(), 4);
    assert_eq!(c.window(3, 0, 2).unwrap(), vec![coset[3], coset[0]]);
    // A longer file is read as far as its coset goes.
    let c = DiskCoset::open(bytes.clone(), 2);
    assert_eq!(c.window(1, 0, 2).unwrap(), vec![coset[1], coset[0]]);
    // A shorter one opens, and is read as far as it goes.
    let c = DiskCoset::open(bytes.clone(), 5);
    assert_eq!(c.size(), 5);
    assert_eq!(c.window(1, 0, 3).unwrap(), coset[1..4].to_vec());
    assert!(c.window(3, 0, 2).is_none());
    assert!(c.window(0, 1, 2).is_none());
    assert_eq!(c.window(4, 0, 0).unwrap(), vec![]);
    // So does one that ends within a record.
    let c = DiskCoset::open(bytes[..100].to_vec(), 4);
    assert_eq!(c.window(0, 0, 3).unwrap(), coset[..3].to_vec());
    assert!(c.window(2, 0, 2).is_none());
    assert!(DiskCoset::open(vec![], 4).window(0, 0, 1).is_none());
    assert!(read_to_vec(&bytes, 5).is_none());
    assert_eq!(read_to_vec(&bytes, 3).unwrap(), coset[..3].to_vec());
}

#[test]
fn records_read_back() {
    let x = sample(5);
    let raw = encode_raw(&x);
    let repr = encode_repr(&x);
    assert_eq!(raw.len(), 160);
    assert_eq!(repr.len(), 160);
    assert_eq!(decode_raw(&raw), x);
    assert_eq!(decode_repr(&repr).unwrap(), x);
    assert_eq!(&raw[32..64], &x[1].to_raw_bytes()[..]);
    assert_eq!(&repr[32..64], x[1].to_repr().as_ref());
    // The canonical record of 258 is its little-endian bytes.
    let mut want = vec![0u8; 32];
    want[0] = 2;
    want[1] = 1;
    assert_eq!(encode_repr(&[Fr::from(258)]), want);
    // The raw record is the Montgomery form, not the integer.
    assert_ne!(encode_raw(&[Fr::from(258)]), want);
}

#[test]
fn records_that_are_not_below_the_modulus_are_refused() {
    let mut bytes = encode_repr(&sample(3));
    assert!(decode_repr(&bytes).is_some());
    for b in bytes[32..64].iter_mut() {
        *b = 0xff;
    }
    assert!(decode_repr(&bytes).is_none());
    // The modulus itself, and one less.
    let mut m = encode_repr(&[-Fr::ONE]);
    assert_eq!(decode_repr(&m).unwrap(), vec![-Fr::ONE]);
    m[0] += 1;
    assert!(decode_repr(&m).is_none());
}

#[test]
fn unreduced_elements_are_told_apart() {
    let x = sample(3);
    assert!(all_canonical(&x));
    let odd = decode_raw(&[0xff; 32]);
    assert!(!is_canonical(&odd[0]));
    assert!(!all_canonical(&[x[0], odd[0]]));
    assert!(is_canonical(&Fr::ZERO));
}

#[test]
fn scratch_files_read_back_what_was_written() {
    let x = sample(6);
    let mut f = Scratch::new(8);
    assert_eq!(f.read_elems_at(0, 8), vec![Fr::ZERO; 8]);
    f.write_elems_at(1, &x);
    assert_eq!(f.read_elems_at(1, 6), x);
    assert_eq!(f.read_elems_at(0, 1), vec![Fr::ZERO]);
    assert_eq!(f.read_elems_at(7, 1), vec![Fr::ZERO]);
    // A fresh file is zero bytes.
    assert_eq!(Scratch::new(2).into_bytes(), vec![0u8; 64]);
}

#[test]
fn interpolation_undoes_the_transform() {
    for k in [0u32, 1, 2, 5] {
        let w = omega(k);
        let values = sample(1 << k);
        let coeffs = interpolate(&values, w, k as usize);
        let mut back = coeffs.clone();
        best_fft(&mut back, w, k);
        assert_eq!(back, values);
        for (i, v) in values.iter().enumerate() {
            let x = w.pow_vartime([i as u64]);
            let at = coeffs.iter().rev().fold(Fr::ZERO, |acc, c| acc * x + c);
            assert_eq!(at, *v);
        }
    }
    // A constant, and the polynomial `x`.
    assert_eq!(
        interpolate(&[Fr::from(9); 4], omega(2), 2),
        vec![Fr::from(9), Fr::ZERO, Fr::ZERO, Fr::ZERO]
    );
    assert_eq!(interpolate(&[Fr::ONE, -Fr::ONE], -Fr::ONE, 1), vec![Fr::ZERO, Fr::ONE]);
}

#[test]
fn rotations_down_to_the_smallest_integer() {
    let spec = TileSpec::new(16, 1, 3);
    assert_eq!(spec.rotation_idx(0, i32::MIN), 0);
    assert_eq!(spec.rotation_idx(3, i32::MIN), 3);
    assert_eq!(spec.rotation_idx(2, -3), 15);
    assert_eq!(spec.rotation_idx(0, i32::MAX), 15);
}
