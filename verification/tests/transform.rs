//! The radix-2 transforms checked against a direct discrete Fourier transform
//! over the one-limb ring `Z/(2^64 + 1)`.

use lib::limbs::Limb;
use lib::ssa::transform::SsaTransform;

/// `2^64 + 1`, the modulus of the one-limb ring.
const ONE_LIMB_MODULUS: u128 = (1u128 << 64) + 1;

/// `value * 2^shift mod (2^64 + 1)` by repeated doubling.
fn reference_shift(value: u128, shift: usize) -> u128 {
    let mut r = value % ONE_LIMB_MODULUS;
    for _ in 0..shift {
        r = (r * 2) % ONE_LIMB_MODULUS;
    }
    r
}

fn bit_reverse(p: usize, k: usize) -> usize {
    let bits = k.trailing_zeros();
    let mut r = 0;
    for b in 0..bits {
        if p & (1 << b) != 0 {
            r |= 1 << (bits - 1 - b);
        }
    }
    r
}

fn matrix_of(values: &[u128]) -> Vec<Limb> {
    let mut m = Vec::new();
    for v in values {
        m.push(*v as u64);
        m.push((*v >> 64) as u64);
    }
    m
}

fn residues_of(matrix: &[Limb]) -> Vec<u128> {
    matrix
        .chunks(2)
        .map(|s| ((s[0] as u128) | ((s[1] as u128) << 64)) % ONE_LIMB_MODULUS)
        .collect()
}

/// Frequency `bit_reverse(p)` of `values` under the root `2^root_shift`.
fn reference_forward(values: &[u128], root_shift: usize) -> Vec<u128> {
    let k = values.len();
    (0..k)
        .map(|p| {
            let q = bit_reverse(p, k);
            values.iter().enumerate().fold(0u128, |acc, (j, v)| {
                (acc + reference_shift(*v, (root_shift * j * q) % 128)) % ONE_LIMB_MODULUS
            })
        })
        .collect()
}

/// Slot `j` of the inverse transform of bit-reversed `values` under the
/// root `2^root_shift`.
fn reference_inverse(values: &[u128], root_shift: usize) -> Vec<u128> {
    let k = values.len();
    let inverse = 128 - root_shift;
    (0..k)
        .map(|j| {
            values.iter().enumerate().fold(0u128, |acc, (p, v)| {
                let q = bit_reverse(p, k);
                (acc + reference_shift(*v, (inverse * j * q) % 128)) % ONE_LIMB_MODULUS
            })
        })
        .collect()
}

fn sample(k: usize) -> Vec<u128> {
    (0..k)
        .map(|i| match i % 4 {
            0 => (i as u128 + 1) * 0x0123_4567_89AB_CDEF,
            1 => 0xFFFF_FFFF_FFFF_FFFF - i as u128,
            2 => 1u128 << 64,
            _ => i as u128 * 3 + 7,
        })
        .collect()
}

/// Root shifts of order `k` in the one-limb ring: `2^r` with `r * k / 2 = 64`
/// modulo 128.
fn root_for(k: usize) -> usize {
    128 / k
}

#[test]
fn recursive_dif_matches_direct_transform() {
    for k in [1usize, 2, 4, 8, 16] {
        let values = sample(k);
        let root = if k >= 2 { root_for(k) } else { 0 };
        let mut matrix = matrix_of(&values);
        let mut scratch = vec![0 as Limb; 2];
        SsaTransform::fft_recursive_dif(&mut matrix, k, root, 64, &mut scratch);
        assert_eq!(residues_of(&matrix), reference_forward(&values, root), "k = {k}");
    }
}

#[test]
fn recursive_dif_with_odd_multiple_root() {
    // 2^(3 * 32) also has order four: 96 * 2 = 192 = 64 modulo 128.
    let values = sample(4);
    let mut matrix = matrix_of(&values);
    let mut scratch = vec![0 as Limb; 2];
    SsaTransform::fft_recursive_dif(&mut matrix, 4, 96, 64, &mut scratch);
    assert_eq!(residues_of(&matrix), reference_forward(&values, 96));
}

#[test]
fn recursive_dit_matches_direct_inverse() {
    for k in [1usize, 2, 4, 8, 16] {
        let values = sample(k);
        let root = if k >= 2 { root_for(k) } else { 0 };
        let mut matrix = matrix_of(&values);
        let mut scratch = vec![0 as Limb; 2];
        SsaTransform::fft_recursive_dit(&mut matrix, k, root, 64, &mut scratch);
        assert_eq!(residues_of(&matrix), reference_inverse(&values, root), "k = {k}");
    }
}

#[test]
fn inverse_after_forward_scales_by_length() {
    for k in [1usize, 2, 4, 8, 16] {
        let values = sample(k);
        let root = if k >= 2 { root_for(k) } else { 0 };
        let mut matrix = matrix_of(&values);
        let mut scratch = vec![0 as Limb; 2];
        SsaTransform::fft_in_place(&mut matrix, k, root, 64, false, false, &mut scratch);
        SsaTransform::fft_in_place(&mut matrix, k, root, 64, true, false, &mut scratch);
        let expected: Vec<u128> = values
            .iter()
            .map(|v| (v % ONE_LIMB_MODULUS) * k as u128 % ONE_LIMB_MODULUS)
            .collect();
        assert_eq!(residues_of(&matrix), expected, "k = {k}");
    }
}

#[test]
fn zero_upper_half_first_stage_matches_full_transform() {
    for k in [2usize, 4, 8, 16] {
        let mut values = sample(k);
        for v in values.iter_mut().skip(k / 2) {
            *v = 0;
        }
        let root = root_for(k);
        let mut fused = matrix_of(&values);
        let mut scratch = vec![0 as Limb; 2];
        SsaTransform::fft_in_place(&mut fused, k, root, 64, false, true, &mut scratch);
        let mut plain = matrix_of(&values);
        SsaTransform::fft_in_place(&mut plain, k, root, 64, false, false, &mut scratch);
        assert_eq!(residues_of(&fused), residues_of(&plain), "k = {k}");
        assert_eq!(residues_of(&fused), reference_forward(&values, root), "k = {k}");
    }
}

#[test]
fn coefficient_accessors_address_slots() {
    let mut matrix: Vec<Limb> = (0..12).collect();
    assert_eq!(SsaTransform::coeff(&matrix, 1, 3), &[3, 4, 5]);
    assert_eq!(SsaTransform::coeff(&matrix, 3, 3), &[9, 10, 11]);
    SsaTransform::coeff_mut(&mut matrix, 2, 3)[1] = 99;
    assert_eq!(matrix[7], 99);
    assert_eq!(matrix[6], 6);
}
