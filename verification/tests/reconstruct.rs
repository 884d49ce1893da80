//! Reconstruction of a product from its coefficient matrix.

use lib::limbs::Limb;
use lib::ssa::coefficients::SsaCoefficients;
use lib::ssa::plan::InverseTwist;
use lib::ssa::ring::SsaRing;

fn scratch_len(transform_len: usize, chunk_bits: usize, inner_bits: usize, mod_bits: usize) -> usize {
    let cl = inner_bits / 64 + 1;
    let outer_cl = mod_bits / 64 + 1;
    let contributions = cl + ((transform_len - 1) * chunk_bits) / 64 + 1;
    let acc = contributions.max(outer_cl);
    acc + (cl + 1).max(acc - mod_bits / 64)
}

/// `2^64 + 1` as an `i128`.
const ONE_LIMB_MODULUS: i128 = (1i128 << 64) + 1;

fn signed_value(slot: &[Limb]) -> i128 {
    let value = (slot[0] as i128) | ((slot[1] as i128) << 64);
    if slot[1] != 0 || slot[0] >= 1 << 63 {
        value - ONE_LIMB_MODULUS
    } else {
        value
    }
}

#[test]
fn reconstruct_adds_signed_coefficients_modulo_the_outer_ring() {
    // Inner and outer rings of one limb; coefficients 5, -3, 7, -1.
    let coefficients: [[Limb; 2]; 4] = [[5, 0], [u64::MAX - 1, 0], [7, 0], [0, 1]];
    let mut matrix: Vec<Limb> = coefficients.iter().flatten().copied().collect();
    let original = matrix.clone();
    let chunk_bits = 8;
    let mut dst = vec![0; 2];
    let mut scratch = vec![0; scratch_len(4, chunk_bits, 64, 64)];
    let mut twist_scratch = vec![];
    SsaCoefficients::reconstruct(&mut matrix, 4, chunk_bits, 64, 64, &mut dst, &mut scratch, None, &mut twist_scratch);
    assert_eq!(matrix, original, "an untwisted matrix is read, not written");
    let sum: i128 = (0..4).map(|i| signed_value(&original[2 * i..2 * i + 2]) << (i * chunk_bits)).sum();
    assert_eq!(sum, 5 - 3 * 256 + 7 * 65536 - 16777216);
    let expected = sum.rem_euclid(ONE_LIMB_MODULUS);
    let got = (dst[0] as i128) | ((dst[1] as i128) << 64);
    assert_eq!(got, expected);
}

#[test]
fn reconstruct_writes_a_prefix_into_a_short_destination() {
    let mut matrix: Vec<Limb> = vec![9, 0, 1, 0];
    let mut dst = vec![0; 1];
    let mut scratch = vec![0; scratch_len(2, 64, 64, 128)];
    SsaCoefficients::reconstruct(&mut matrix, 2, 64, 64, 128, &mut dst, &mut scratch, None, &mut []);
    // 9 + 1 * 2^64 keeps its low limb.
    assert_eq!(dst, vec![9]);
}

#[test]
fn reconstruct_applies_the_inverse_twist_first() {
    let inner_bits = 128_usize;
    let cl = inner_bits / 64 + 1;
    let transform_len = 4_usize;
    let twist = InverseTwist { inner_bits, transform_log: 2, twist_step_half: 3 };
    let mut matrix: Vec<Limb> = vec![11, 0, 0, 12345, 1, 0, 0, 0, 1, 77, 0, 0];
    let mut expected_matrix = matrix.clone();
    let mut stage = vec![0; 2 * cl];
    for i in 0..transform_len {
        let slot = &mut expected_matrix[i * cl..(i + 1) * cl];
        let shift = twist.shift_for(i);
        if shift != 0 {
            SsaRing::shift_in_place(slot, shift / 2, inner_bits, &mut stage);
            if shift % 2 == 1 {
                SsaRing::mul_sqrt2(slot, inner_bits, &mut stage);
            }
        }
        SsaRing::normalize(slot, inner_bits);
    }
    let mut expected_dst = vec![0; 3];
    let mut untwisted = expected_matrix.clone();
    let mut scratch = vec![0; scratch_len(transform_len, 32, inner_bits, 128)];
    SsaCoefficients::reconstruct(&mut untwisted, transform_len, 32, inner_bits, 128, &mut expected_dst, &mut scratch, None, &mut []);

    let mut dst = vec![0; 3];
    let mut twist_scratch = vec![0; 2 * cl];
    SsaCoefficients::reconstruct(
        &mut matrix,
        transform_len,
        32,
        inner_bits,
        128,
        &mut dst,
        &mut scratch,
        Some(twist),
        &mut twist_scratch,
    );
    assert_eq!(matrix, expected_matrix);
    assert_eq!(dst, expected_dst);
}

#[test]
fn split_then_reconstruct_recovers_the_operand() {
    let source: Vec<Limb> = vec![0x0123_4567_89ab_cdef, 0xfedc_ba98_7654_3210, 0x1111_2222_3333_4444];
    let inner_bits = 128_usize;
    let cl = inner_bits / 64 + 1;
    for chunk_bits in [16_usize, 40, 64, 100] {
        let transform_len = (source.len() * 64).div_ceil(chunk_bits);
        let mut matrix = vec![0; transform_len * cl];
        let mut stage = vec![0; 2 * cl];
        SsaCoefficients::split_twisted(&source, &mut matrix, transform_len, chunk_bits, inner_bits, 0, &mut stage);
        let mod_bits = 256;
        let mut dst = vec![0; mod_bits / 64 + 1];
        let mut scratch = vec![0; scratch_len(transform_len, chunk_bits, inner_bits, mod_bits)];
        SsaCoefficients::reconstruct(&mut matrix, transform_len, chunk_bits, inner_bits, mod_bits, &mut dst, &mut scratch, None, &mut []);
        // An accumulator no wider than one outer coefficient keeps its bias;
        // the residue is what is promised.
        SsaRing::normalize(&mut dst, mod_bits);
        let mut expected = source.clone();
        expected.resize(mod_bits / 64 + 1, 0);
        assert_eq!(dst, expected, "chunk width {chunk_bits}");
    }
}
