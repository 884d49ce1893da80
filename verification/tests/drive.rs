//! The transform products and squares modulo `2^N + 1`, checked against the
//! basecase product.

use lib::limbs::Limb;
use lib::ssa::plan::FftPlan;
use lib::ssa::pointwise::SsaPointwise;
use lib::ssa::ring::SsaRing;
use lib::ssa::transform::SsaTransform;

#[test]
fn fft_mul_mod_slices_accepts_matching_operand_layouts() {
    let modulus_bits = 512;
    let ml = SsaRing::mod_limbs(modulus_bits);
    let cl = SsaRing::coeff_limbs(modulus_bits);
    let plan = FftPlan::new(modulus_bits);
    let mut left = vec![0; ml];
    let mut right = vec![0; ml];
    *left
        .first_mut()
        .expect("modulus geometry provides a non-empty limb slice") = 3;
    *right
        .first_mut()
        .expect("modulus geometry provides a non-empty limb slice") = 5;

    let mut short_result = vec![0; cl];
    let mut short_scratch = vec![0; plan.transform_mul_scratch()];
    SsaTransform::fft_mul_mod_slices(
        &mut short_result,
        &left,
        &right,
        modulus_bits,
        Some((64, 64)),
        true,
        Some(plan),
        &mut short_scratch,
    );

    let mut guarded_left = left.clone();
    let mut guarded_right = right.clone();
    guarded_left.push(0);
    guarded_right.push(0);
    let mut guarded_result = vec![0; cl];
    let mut guarded_scratch = vec![0; plan.transform_mul_scratch()];
    SsaTransform::fft_mul_mod_slices(
        &mut guarded_result,
        &guarded_left,
        &guarded_right,
        modulus_bits,
        None,
        true,
        Some(plan),
        &mut guarded_scratch,
    );

    assert_eq!(short_result, guarded_result);
    assert_eq!(
        short_result
            .first()
            .copied()
            .expect("coefficient geometry provides a non-empty result"),
        15
    );
}

/// A deterministic canonical operand of `ml + 1` limbs with a zero guard.
fn operand(ml: usize, seed: u64) -> Vec<Limb> {
    let mut v = Vec::with_capacity(ml + 1);
    let mut x = seed.wrapping_mul(0x9E37_79B9_7F4A_7C15) | 1;
    for _ in 0..ml {
        x ^= x << 13;
        x ^= x >> 7;
        x ^= x << 17;
        v.push(x);
    }
    v.push(0);
    v
}

fn basecase_product(left: &[Limb], right: &[Limb], modulus_bits: usize) -> Vec<Limb> {
    let ml = SsaRing::mod_limbs(modulus_bits);
    let mut dst = vec![0; ml + 1];
    let mut scratch = vec![0; 2 * ml];
    SsaPointwise::fermat_mul_into(&mut dst, left, right, modulus_bits, &mut scratch);
    dst
}

#[test]
fn transform_products_match_the_basecase() {
    for modulus_bits in [512usize, 1024, 2048, 4096] {
        let plan = FftPlan::new(modulus_bits);
        assert!(SsaTransform::transform_geometry_ok(&plan, modulus_bits), "N = {modulus_bits}");
        let ml = SsaRing::mod_limbs(modulus_bits);
        for seed in 1..4u64 {
            let left = operand(ml, seed);
            let right = operand(ml, seed + 100);
            let mut dst = vec![0; ml + 1];
            let mut scratch = vec![0; 1 << 16];
            SsaTransform::fft_mul_mod_slices(
                &mut dst,
                &left,
                &right,
                modulus_bits,
                None,
                true,
                None,
                &mut scratch,
            );
            assert_eq!(dst, basecase_product(&left, &right, modulus_bits), "N = {modulus_bits}");
        }
    }
}

#[test]
fn transform_squares_match_the_basecase() {
    for modulus_bits in [512usize, 1024, 2048] {
        let ml = SsaRing::mod_limbs(modulus_bits);
        for seed in 1..4u64 {
            let a = operand(ml, seed);
            let mut dst = vec![0; ml + 1];
            let mut scratch = vec![0; 1 << 16];
            SsaTransform::fft_sqr_mod_slices(&mut dst, &a, modulus_bits, true, None, &mut scratch);
            assert_eq!(dst, basecase_product(&a, &a, modulus_bits), "N = {modulus_bits}");
        }
    }
}

#[test]
fn transform_product_of_all_ones_wraps_to_four() {
    // (2^N - 1)^2 = (-2)^2 = 4 modulo 2^N + 1: every chunk is full, which
    // makes the largest negacyclic coefficients.
    let modulus_bits = 1024;
    let ml = SsaRing::mod_limbs(modulus_bits);
    let mut a = vec![Limb::MAX; ml];
    a.push(0);
    let mut dst = vec![0; ml + 1];
    let mut scratch = vec![0; 1 << 16];
    SsaTransform::fft_mul_mod_slices(&mut dst, &a, &a, modulus_bits, None, true, None, &mut scratch);
    let mut expected = vec![0; ml + 1];
    expected[0] = 4;
    assert_eq!(dst, expected);
    SsaTransform::fft_sqr_mod_slices(&mut dst, &a, modulus_bits, true, None, &mut scratch);
    assert_eq!(dst, expected);
}

#[test]
fn special_residues_are_answered_directly() {
    let modulus_bits = 1024;
    let ml = SsaRing::mod_limbs(modulus_bits);
    let mut neg_one = vec![0; ml + 1];
    neg_one[ml] = 1;
    let three = {
        let mut v = vec![0; ml + 1];
        v[0] = 3;
        v
    };
    let mut dst = vec![7; ml + 3];
    let mut scratch = vec![0; 1 << 16];
    SsaTransform::fft_mul_mod_slices(&mut dst, &neg_one, &neg_one, modulus_bits, None, true, None, &mut scratch);
    let mut one = vec![0; ml + 1];
    one[0] = 1;
    assert_eq!(&dst[..ml + 1], &one[..]);
    assert_eq!(&dst[ml + 1..], &[7, 7]);
    // -1 * 3 = -3 = 2^N - 2.
    SsaTransform::fft_mul_mod_slices(&mut dst, &neg_one, &three, modulus_bits, None, true, None, &mut scratch);
    assert_eq!(dst[0], Limb::MAX - 1);
    assert!(dst[1..ml].iter().all(|l| *l == Limb::MAX));
    assert_eq!(dst[ml], 0);
}

#[test]
fn short_scratch_falls_back_to_the_same_product() {
    let modulus_bits = 1024;
    let ml = SsaRing::mod_limbs(modulus_bits);
    let left = operand(ml, 5);
    let right = operand(ml, 6);
    let mut dst = vec![0; ml + 1];
    let mut scratch = vec![0; 2 * ml];
    SsaTransform::fft_mul_mod_slices(&mut dst, &left, &right, modulus_bits, None, true, None, &mut scratch);
    assert_eq!(dst, basecase_product(&left, &right, modulus_bits));
}

#[test]
fn planned_rings_stage_the_transform_within_their_workspace() {
    for modulus_bits in [1usize << 15, 1 << 16, 1 << 17, 3 << 14, 5 << 13] {
        let plan = FftPlan::new(modulus_bits);
        assert!(SsaTransform::transform_geometry_ok(&plan, modulus_bits), "N = {modulus_bits}");
        let mul = SsaTransform::transform_mul_layout_len(&plan, modulus_bits).expect("layout fits a word");
        let sqr = SsaTransform::transform_sqr_layout_len(&plan, modulus_bits).expect("layout fits a word");
        assert!(mul <= plan.required_mul_scratch(), "N = {modulus_bits}: {mul} > {}", plan.required_mul_scratch());
        assert!(sqr <= plan.required_sqr_scratch(), "N = {modulus_bits}: {sqr} > {}", plan.required_sqr_scratch());
    }
}

#[test]
fn operands_with_a_zero_upper_half_take_the_fused_first_stage() {
    for modulus_bits in [512usize, 1024, 4096] {
        let ml = SsaRing::mod_limbs(modulus_bits);
        for seed in 1..3u64 {
            let mut small = operand(ml, seed);
            for limb in small.iter_mut().skip(ml / 2) {
                *limb = 0;
            }
            let full = operand(ml, seed + 7);
            let mut scratch = vec![0; 1 << 16];
            let mut dst = vec![0; ml + 1];
            SsaTransform::fft_mul_mod_slices(&mut dst, &small, &full, modulus_bits, None, true, None, &mut scratch);
            assert_eq!(dst, basecase_product(&small, &full, modulus_bits), "N = {modulus_bits}");
            SsaTransform::fft_mul_mod_slices(&mut dst, &small, &small, modulus_bits, None, true, None, &mut scratch);
            assert_eq!(dst, basecase_product(&small, &small, modulus_bits), "N = {modulus_bits}");
            SsaTransform::fft_sqr_mod_slices(&mut dst, &small, modulus_bits, true, None, &mut scratch);
            assert_eq!(dst, basecase_product(&small, &small, modulus_bits), "N = {modulus_bits}");
        }
    }
}

#[test]
fn stage_two_transform_finishes_a_fused_first_stage() {
    // With the first stage done by hand on a zero upper half, the
    // remaining stages give the full forward transform.
    let mod_bits = 64;
    let k = 8;
    let root = 128 / k;
    let values: Vec<u128> = vec![5, 9, 0x1234_5678, 77, 0, 0, 0, 0];
    let mut full: Vec<Limb> = values.iter().flat_map(|v| [*v as u64, 0]).collect();
    let mut staged = full.clone();
    let mut scratch = vec![0; 2];
    SsaTransform::fft_in_place(&mut full, k, root, mod_bits, false, false, &mut scratch);
    for i in 0..k / 2 {
        let mut slot = vec![staged[2 * i], staged[2 * i + 1]];
        SsaRing::shift(&mut slot, root * i, mod_bits, &mut scratch);
        staged[2 * (k / 2 + i)] = slot[0];
        staged[2 * (k / 2 + i) + 1] = slot[1];
    }
    SsaTransform::fft_in_place_from_stage2(&mut staged, k, root, mod_bits, &mut scratch);
    let modulus = (1u128 << 64) + 1;
    for p in 0..k {
        let a = (staged[2 * p] as u128 | ((staged[2 * p + 1] as u128) << 64)) % modulus;
        let b = (full[2 * p] as u128 | ((full[2 * p + 1] as u128) << 64)) % modulus;
        assert_eq!(a, b, "slot {p}");
    }
}

#[test]
fn guard_free_destination_receives_the_exact_product() {
    let modulus_bits = 1024;
    let ml = SsaRing::mod_limbs(modulus_bits);
    let left: Vec<Limb> = vec![0x1234_5678_9abc_def0, 0x0fed_cba9_8765_4321, 0, 0];
    let right: Vec<Limb> = vec![0xffff_ffff_ffff_ffff, 0x0000_0000_0000_0007];
    let mut dst = vec![Limb::MAX; 4];
    let mut scratch = vec![0; 1 << 16];
    SsaTransform::fft_mul_mod_slices(&mut dst, &left, &right, modulus_bits, Some((128, 67)), true, None, &mut scratch);
    let mut padded_left = left.clone();
    padded_left.resize(ml + 1, 0);
    let mut padded_right = right.clone();
    padded_right.resize(ml + 1, 0);
    let full = basecase_product(&padded_left, &padded_right, modulus_bits);
    assert_eq!(&dst[..], &full[..4]);
    assert!(full[4..].iter().all(|l| *l == 0));
}

#[test]
fn guarded_operands_read_only_their_first_slot() {
    let modulus_bits = 512;
    let ml = SsaRing::mod_limbs(modulus_bits);
    let left = operand(ml, 3);
    let right = operand(ml, 4);
    let mut long_left = left.clone();
    long_left.extend([9, 9, 9]);
    let mut long_right = right.clone();
    long_right.extend([5]);
    let mut scratch = vec![0; 1 << 16];
    let mut dst = vec![0; ml + 1];
    SsaTransform::fft_mul_mod_slices(&mut dst, &long_left, &long_right, modulus_bits, None, true, None, &mut scratch);
    assert_eq!(dst, basecase_product(&left, &right, modulus_bits));
    let mut square = vec![0; ml + 1];
    SsaTransform::fft_sqr_mod_slices(&mut square, &long_left, modulus_bits, true, None, &mut scratch);
    assert_eq!(square, basecase_product(&left, &left, modulus_bits));
}

#[test]
fn forced_geometry_without_sign_room_still_gives_the_product() {
    // Exponent six on 18240 bits leaves the inner ring exactly at the
    // coefficient bound, with no bit to tell signs apart; the transform
    // declines that geometry and the product is still exact.
    let modulus_bits = 18_240;
    let plan = FftPlan::try_forced(modulus_bits, 6).expect("exponent six divides the width");
    assert_eq!(plan.inner_bits, 2 * plan.chunk_bits + plan.transform_log);
    assert!(!SsaTransform::transform_geometry_ok(&plan, modulus_bits));
    let ml = SsaRing::mod_limbs(modulus_bits);
    let left = operand(ml, 21);
    let right = operand(ml, 22);
    let mut dst = vec![0; ml + 1];
    let mut scratch = vec![0; 1 << 18];
    SsaTransform::fft_mul_mod_slices(&mut dst, &left, &right, modulus_bits, None, true, Some(plan), &mut scratch);
    assert_eq!(dst, basecase_product(&left, &right, modulus_bits));
}
