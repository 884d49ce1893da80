//! Operand splitting into twisted coefficients, and the closing fold.

use lib::limbs::Limb;
use lib::ssa::coefficients::SsaCoefficients;
use lib::ssa::ring::SsaRing;

/// Plain chunk extraction with no twist, one bit at a time.
fn reference_split(
    source: &[Limb],
    matrix: &mut [Limb],
    transform_len: usize,
    chunk_bits: usize,
    inner_bits: usize,
) {
    let cl = inner_bits / 64 + 1;
    let active = (source.len() * 64).div_ceil(chunk_bits).min(transform_len);
    matrix[active * cl..].fill(0);
    for index in 0..active {
        let slot = &mut matrix[index * cl..index * cl + cl];
        slot.fill(0);
        for bit in 0..chunk_bits {
            let position = index * chunk_bits + bit;
            let limb = position / 64;
            if limb < source.len() && (source[limb] >> (position % 64)) & 1 == 1 {
                slot[bit / 64] |= 1 << (bit % 64);
            }
        }
    }
}

fn sample_source(len: usize) -> Vec<Limb> {
    (0_usize..len)
        .map(|index| (index.wrapping_mul(0x9E37_79B9) | 1) as Limb)
        .collect()
}

#[test]
fn fused_whole_bit_twist_matches_two_pass_decomposition() {
    let transform_len = 8_usize;
    let chunk_bits = 128_usize;
    let inner_bits = 512_usize;
    let twist_step_half = 128_usize;
    let cl = SsaRing::coeff_limbs(inner_bits);
    let source = sample_source(16);
    let mut split = vec![0; transform_len * cl];
    let mut expected = vec![0; split.len()];
    let mut actual = vec![0; split.len()];
    let mut scratch = vec![0; cl * 2];

    reference_split(&source, &mut split, transform_len, chunk_bits, inner_bits);
    let period = inner_bits * 2;
    let whole_step = twist_step_half >> 1;
    let mut shift = 0_usize;
    for (input, output) in split.chunks_exact(cl).zip(expected.chunks_exact_mut(cl)) {
        if shift == 0 {
            output.copy_from_slice(input);
        } else {
            SsaRing::shift_from(output, input, shift, inner_bits);
        }
        shift = SsaRing::reduce_mod_period(shift + whole_step, period);
    }

    SsaCoefficients::split_twisted(
        &source,
        &mut actual,
        transform_len,
        chunk_bits,
        inner_bits,
        twist_step_half,
        &mut scratch,
    );
    assert_eq!(actual, expected, "fused decomposition changed the twist");
}

#[test]
fn fused_odd_half_bit_twist_matches_sqrt2_decomposition() {
    let transform_len = 8_usize;
    let chunk_bits = 128_usize;
    let inner_bits = 512_usize;
    let twist_step_half = 3_usize;
    let cl = SsaRing::coeff_limbs(inner_bits);
    let source = sample_source(16);
    let mut split = vec![0; transform_len * cl];
    let mut expected = vec![0; split.len()];
    let mut actual = vec![0; split.len()];
    let mut scratch = vec![0; cl * 2];

    reference_split(&source, &mut split, transform_len, chunk_bits, inner_bits);
    let half_period = inner_bits * 4;
    let mut shift = 0_usize;
    for (input, output) in split.chunks_exact(cl).zip(expected.chunks_exact_mut(cl)) {
        output.copy_from_slice(input);
        SsaRing::shift(output, shift >> 1, inner_bits, &mut scratch);
        if shift % 2 != 0 {
            SsaRing::mul_sqrt2(output, inner_bits, &mut scratch);
        }
        shift = SsaRing::reduce_mod_period(shift + twist_step_half, half_period);
    }

    SsaCoefficients::split_twisted(
        &source,
        &mut actual,
        transform_len,
        chunk_bits,
        inner_bits,
        twist_step_half,
        &mut scratch,
    );
    assert_eq!(
        actual, expected,
        "fused sqrt(2) twist changed the decomposition"
    );
}

#[test]
fn untwisted_split_matches_bitwise_chunks_at_unaligned_widths() {
    let inner_bits = 256_usize;
    let cl = SsaRing::coeff_limbs(inner_bits);
    let source = sample_source(7);
    for chunk_bits in [1_usize, 63, 64, 65, 100, 127, 192, 256] {
        let transform_len = 16_usize;
        let mut expected = vec![7; transform_len * cl + 3];
        let mut actual = vec![7; transform_len * cl + 3];
        let mut scratch = vec![0; cl * 2];
        reference_split(&source, &mut expected, transform_len, chunk_bits, inner_bits);
        SsaCoefficients::split_twisted(
            &source,
            &mut actual,
            transform_len,
            chunk_bits,
            inner_bits,
            0,
            &mut scratch,
        );
        assert_eq!(actual, expected, "chunk width {chunk_bits}");
    }
}

#[test]
fn split_of_an_empty_operand_or_zero_chunks_clears_the_matrix() {
    let inner_bits = 128_usize;
    let cl = SsaRing::coeff_limbs(inner_bits);
    let mut scratch = vec![0; cl * 2];
    let mut matrix = vec![9; 4 * cl];
    SsaCoefficients::split_twisted(&[], &mut matrix, 4, 64, inner_bits, 5, &mut scratch);
    assert!(matrix.iter().all(|&limb| limb == 0));
    let mut matrix = vec![9; 4 * cl];
    SsaCoefficients::split_twisted(&[1, 2], &mut matrix, 4, 0, inner_bits, 5, &mut scratch);
    assert!(matrix.iter().all(|&limb| limb == 0));
}

#[test]
fn stage_one_dif_upper_half_is_the_lower_half_times_the_twiddle() {
    let transform_len = 8_usize;
    let chunk_bits = 96_usize;
    let inner_bits = 256_usize;
    let twist_step_half = 5_usize;
    let omega_shift = 64_usize;
    let cl = SsaRing::coeff_limbs(inner_bits);
    let source = sample_source(5);
    let mut scratch = vec![0; cl * 2];

    let mut fused = vec![3; transform_len * cl];
    assert!(SsaCoefficients::split_twisted_and_stage1_dif(
        &source,
        &mut fused,
        transform_len,
        chunk_bits,
        inner_bits,
        twist_step_half,
        omega_shift,
        &mut scratch,
    ));

    let half = transform_len / 2;
    let mut lower = vec![0; half * cl];
    SsaCoefficients::split_twisted(
        &source,
        &mut lower,
        half,
        chunk_bits,
        inner_bits,
        twist_step_half,
        &mut scratch,
    );
    assert_eq!(&fused[..half * cl], &lower[..], "lower half is the twisted split");

    for j in 0..half {
        let mut expected = lower[j * cl..(j + 1) * cl].to_vec();
        SsaRing::shift(&mut expected, j * omega_shift, inner_bits, &mut scratch);
        SsaRing::normalize(&mut expected, inner_bits);
        let mut upper = fused[(half + j) * cl..(half + j + 1) * cl].to_vec();
        SsaRing::normalize(&mut upper, inner_bits);
        assert_eq!(upper, expected, "upper slot {j}");
    }
}

#[test]
fn stage_one_dif_refuses_short_transforms_and_small_matrices() {
    let inner_bits = 128_usize;
    let cl = SsaRing::coeff_limbs(inner_bits);
    let mut scratch = vec![0; cl * 2];
    let mut matrix = vec![4; 4 * cl];
    assert!(!SsaCoefficients::split_twisted_and_stage1_dif(
        &[1], &mut matrix, 1, 64, inner_bits, 0, 0, &mut scratch,
    ));
    assert!(!SsaCoefficients::split_twisted_and_stage1_dif(
        &[1], &mut matrix, 8, 64, inner_bits, 0, 0, &mut scratch,
    ));
    assert!(matrix.iter().all(|&limb| limb == 4));
}

#[test]
fn fold_subtracts_the_high_part_from_the_low_part() {
    let mut scratch = vec![0; 4];
    let mut no_borrow = vec![5, 3, 0];
    SsaCoefficients::fold_high_into_low(&mut no_borrow, 1, 2, &mut scratch);
    assert_eq!(no_borrow, vec![2, 0, 0]);

    let mut borrow = vec![3, 5, 0];
    SsaCoefficients::fold_high_into_low(&mut borrow, 1, 2, &mut scratch);
    assert_eq!(borrow, vec![u64::MAX, 0, 0]);

    let mut to_minus_one = vec![0, 1, 0];
    SsaCoefficients::fold_high_into_low(&mut to_minus_one, 1, 2, &mut scratch);
    assert_eq!(to_minus_one, vec![0, 1, 0]);

    let mut short = vec![8, 9];
    SsaCoefficients::fold_high_into_low(&mut short, 1, 2, &mut scratch);
    assert_eq!(short, vec![8, 9]);
}

#[test]
fn fold_keeps_the_value_modulo_two_to_the_n_plus_one() {
    // Two data limbs: the modulus is 2^128 + 1; check against u128 arithmetic
    // on values whose high part fits two limbs.
    let cases: [[Limb; 4]; 4] = [
        [1, 2, 3, 4],
        [u64::MAX, u64::MAX, u64::MAX, u64::MAX],
        [0, 0, 1, 0],
        [7, 0, 0, 1],
    ];
    for case in cases {
        let low = (case[0] as u128) | ((case[1] as u128) << 64);
        let high = (case[2] as u128) | ((case[3] as u128) << 64);
        // low + 2^128 * high = low - high (mod 2^128 + 1).
        let expected_low;
        let expected_guard;
        if low >= high {
            expected_low = low - high;
            expected_guard = 0;
        } else {
            // low - high + 2^128 + 1, which is 2^128 exactly when high = low + 1.
            let wrapped = low.wrapping_sub(high).wrapping_add(1);
            if wrapped == 0 {
                expected_low = 0;
                expected_guard = 1;
            } else {
                expected_low = wrapped;
                expected_guard = 0;
            }
        }
        let mut dst = case.to_vec();
        let mut scratch = vec![0; 2];
        SsaCoefficients::fold_high_into_low(&mut dst, 2, 3, &mut scratch);
        let got_low = (dst[0] as u128) | ((dst[1] as u128) << 64);
        assert_eq!((got_low, dst[2], dst[3]), (expected_low, expected_guard, 0), "{case:?}");
    }
}
