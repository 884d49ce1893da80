//! The four-way tier against an independent schoolbook product.

use lib::toom4::cook::{
    EvaluationBuffers, EvaluationKernels, MiddleProducts, OperandParts, PointDimensions, Toom4,
    TOOM4_THRESHOLD,
};
use lib::toom4::interpolate::MiddleValues;

type Limb = u64;

fn reference_product(a: &[Limb], b: &[Limb]) -> Vec<Limb> {
    let mut dst = vec![0; a.len() + b.len()];
    for (i, &x) in a.iter().enumerate() {
        let mut carry: u128 = 0;
        for (j, &y) in b.iter().enumerate() {
            let t = u128::from(x) * u128::from(y) + u128::from(dst[i + j]) + carry;
            dst[i + j] = t as u64;
            carry = t >> 64;
        }
        let mut k = i + b.len();
        while carry != 0 {
            let t = u128::from(dst[k]) + carry;
            dst[k] = t as u64;
            carry = t >> 64;
            k += 1;
        }
    }
    dst
}

fn operand(len: usize, seed: u64) -> Vec<Limb> {
    let mut state = seed;
    (0..len)
        .map(|_| {
            state = state.wrapping_mul(6364136223846793005).wrapping_add(1442695040888963407);
            state ^ (state >> 31)
        })
        .collect()
}

fn small_value(limbs: &[Limb]) -> u128 {
    limbs.iter().rev().fold(0u128, |acc, &l| (acc << 64) | u128::from(l))
}

#[test]
fn toom4_product_matches_reference_across_shapes() {
    for (len_a, len_b) in [
        (4, 4),
        (5, 4),
        (8, 8),
        (13, 11),
        (16, 13),
        (40, 40),
        (41, 31),
        (100, 77),
        (12, 7),
        (90, 3),
    ] {
        let a = operand(len_a, 7 + len_a as u64);
        let b = operand(len_b, 19 + len_b as u64);
        let mut scratch = vec![Limb::MAX; Toom4::mul_scratch_len(len_a, len_b)];
        let mut dst = vec![Limb::MAX; len_a + len_b];
        Toom4::mul(&mut dst, &a, &b, &mut scratch);
        assert_eq!(dst, reference_product(&a, &b), "{len_a} x {len_b}");
    }
}

#[test]
fn toom4_recursion_above_threshold_matches_reference() {
    let len = TOOM4_THRESHOLD * 4 + 9;
    let a = operand(len, 3);
    let b = operand(len - 50, 5);
    let mut scratch = vec![0; Toom4::mul_scratch_len(a.len(), b.len())];
    let mut dst = vec![0; a.len() + b.len()];
    Toom4::mul(&mut dst, &a, &b, &mut scratch);
    assert_eq!(dst, reference_product(&a, &b));
}

#[test]
fn toom4_square_matches_reference() {
    for len in [1, 3, 4, 5, 8, 9, 17, 64, 255] {
        let a = operand(len, 41 + len as u64);
        let mut scratch = vec![Limb::MAX; Toom4::sqr_scratch_len(len)];
        let mut dst = vec![Limb::MAX; 2 * len];
        Toom4::sqr(&mut dst, &a, &mut scratch);
        assert_eq!(dst, reference_product(&a, &a), "{len}-limb square");
    }
}

#[test]
fn toom4_all_ones_operands_exercise_every_carry() {
    let a = vec![Limb::MAX; 37];
    let b = vec![Limb::MAX; 29];
    let mut scratch = vec![0; Toom4::mul_scratch_len(a.len(), b.len())];
    let mut dst = vec![0; a.len() + b.len()];
    Toom4::mul(&mut dst, &a, &b, &mut scratch);
    assert_eq!(dst, reference_product(&a, &b));
}

#[test]
fn split_four_cuts_at_the_part_width() {
    let values: Vec<Limb> = (1..=10).collect();
    let (p0, p1, p2, p3) = Toom4::split_four(&values, 3);
    assert_eq!(p0, &[1, 2, 3]);
    assert_eq!(p1, &[4, 5, 6]);
    assert_eq!(p2, &[7, 8, 9]);
    assert_eq!(p3, &[10]);
    let (q0, q1, q2, q3) = Toom4::split_four(&values[..5], 3);
    assert_eq!(q0, &[1, 2, 3]);
    assert_eq!(q1, &[4, 5]);
    assert!(q2.is_empty() && q3.is_empty());
}

#[test]
fn local_scratch_len_counts_products_and_evaluations() {
    // Four products of 2s + 2 limbs, two evaluations of s + 1 limbs.
    assert_eq!(Toom4::local_scratch_len(5, 7), 4 * 12 + 2 * 6 + 7);
}

#[test]
fn evaluations_at_the_points_match_direct_sums() {
    let parts: [&[Limb]; 4] = [&[5], &[7], &[11], &[13]];
    let mut dst = vec![0; 2];
    Toom4::evaluate_positive(&mut dst, parts[0], parts[1], parts[2], parts[3], 0);
    assert_eq!(small_value(&dst), 5 + 7 + 11 + 13);
    Toom4::evaluate_positive(&mut dst, parts[0], parts[1], parts[2], parts[3], 1);
    assert_eq!(small_value(&dst), 5 + 2 * 7 + 4 * 11 + 8 * 13);
    Toom4::evaluate_half_scaled(&mut dst, parts[0], parts[1], parts[2], parts[3]);
    assert_eq!(small_value(&dst), 8 * 5 + 4 * 7 + 2 * 11 + 13);

    let mut odd = vec![0; 2];
    let negative = Toom4::evaluate_negative_magnitude(
        &mut dst, &mut odd, parts[0], parts[1], parts[2], parts[3], 0,
    );
    // 5 - 7 + 11 - 13 = -4.
    assert!(negative);
    assert_eq!(small_value(&dst), 4);
    let negative = Toom4::evaluate_negative_magnitude(
        &mut dst, &mut odd, parts[0], parts[1], parts[2], parts[3], 1,
    );
    // 5 - 14 + 44 - 104 = -69.
    assert!(negative);
    assert_eq!(small_value(&dst), 69);
    let even: [&[Limb]; 4] = [&[100], &[1], &[1], &[1]];
    let negative = Toom4::evaluate_negative_magnitude(
        &mut dst, &mut odd, even[0], even[1], even[2], even[3], 1,
    );
    // 100 - 2 + 4 - 8 = 94.
    assert!(!negative);
    assert_eq!(small_value(&dst), 94);
}

#[test]
fn evaluation_at_the_limb_limit_uses_the_guard() {
    let full = [Limb::MAX];
    let mut dst = vec![0; 2];
    Toom4::evaluate_positive(&mut dst, &full, &full, &full, &full, 1);
    assert_eq!(small_value(&dst), 15 * u128::from(Limb::MAX));
}

#[test]
fn half_scaled_kernel_declines_unbalanced_parts() {
    let mut dst = vec![9, 9, 9];
    let short: &[Limb] = &[1];
    let full: &[Limb] = &[1, 2];
    assert!(!Toom4::evaluate_half_scaled_with_kernel(&mut dst, short, full, full, full));
    assert_eq!(dst, vec![9, 9, 9], "a declined evaluation leaves the buffer alone");
    assert!(Toom4::evaluate_half_scaled_with_kernel(&mut dst, full, full, full, short));
    let two_limb = u128::from(2u64) << 64 | 1;
    assert_eq!(small_value(&dst), 8 * two_limb + 4 * two_limb + 2 * two_limb + 1);
}

#[test]
fn interpolation_recovers_known_coefficients() {
    // c(x) = 3 + 1x + 4x^2 + 1x^3 + 5x^4 + 9x^5 + 2x^6.
    let c: [i128; 7] = [3, 1, 4, 1, 5, 9, 2];
    let at = |x: i128| -> i128 { c.iter().rev().fold(0, |acc, &k| acc * x + k) };
    let half: i128 = c.iter().enumerate().map(|(i, &k)| k << (6 - i)).sum();
    let to_limbs = |v: i128| -> Vec<Limb> { vec![v.unsigned_abs() as u64, 0, 0] };
    let mut one = to_limbs(at(1));
    let mut neg_one = to_limbs(at(-1));
    let mut two = to_limbs(at(2));
    let mut neg_two = to_limbs(at(-2));
    let mut half_value = to_limbs(half);
    Toom4::interpolate_with_endpoints(
        &[3],
        &[2],
        MiddleValues {
            neg_two: &mut neg_two,
            one: &mut one,
            neg_one: &mut neg_one,
            two: &mut two,
            half: &mut half_value,
            neg_two_negative: at(-2) < 0,
            neg_one_negative: at(-1) < 0,
        },
    );
    assert_eq!(small_value(&neg_one), 1);
    assert_eq!(small_value(&one), 4);
    assert_eq!(small_value(&half_value), 1);
    assert_eq!(small_value(&two), 5);
    assert_eq!(small_value(&neg_two), 9);
}

#[test]
fn reconstruction_places_coefficients_at_part_widths() {
    let mut dst = vec![0; 6];
    Toom4::reconstruct_around_quadratic(&mut dst, 1, &[1], &[3], &[4], &[5]);
    assert_eq!(dst, vec![0, 1, 0, 3, 4, 5]);
}

#[test]
fn multiplied_points_match_the_evaluations() {
    let a: Vec<Limb> = vec![2, 3, 5, 7];
    let b: Vec<Limb> = vec![11, 13, 17, 19];
    let split = 1;
    let product = 2 * split + 2;
    let mut dst = vec![0; 8];
    let mut neg_two = vec![0; product];
    let mut neg_one = vec![0; product];
    let mut two = vec![0; product];
    let mut half = vec![0; product];
    let mut eval_a = vec![0; split + 1];
    let mut eval_b = vec![0; split + 1];
    let mut inner = vec![0; Toom4::sqr_scratch_len(split)];
    let signs = Toom4::multiply_points(
        &mut dst,
        PointDimensions { split, evaluation: split + 1, product },
        OperandParts { zero: &a[0..1], one: &a[1..2], two: &a[2..3], three: &a[3..4] },
        OperandParts { zero: &b[0..1], one: &b[1..2], two: &b[2..3], three: &b[3..4] },
        &mut MiddleProducts {
            neg_two: &mut neg_two,
            neg_one: &mut neg_one,
            two: &mut two,
            half: &mut half,
        },
        &mut EvaluationBuffers {
            a: &mut eval_a,
            b: &mut eval_b,
            inner: &mut inner,
            kernels: EvaluationKernels { fast_paired_add_sub: false },
        },
    );
    let value = |p: &[Limb], x: i128| -> i128 {
        p.iter().rev().fold(0i128, |acc, &k| acc * x + i128::from(k))
    };
    let one_product = (value(&a, 1) * value(&b, 1)) as u128;
    assert_eq!(small_value(&dst[2..4]), one_product);
    assert_eq!(small_value(&two), (value(&a, 2) * value(&b, 2)) as u128);
    assert_eq!(small_value(&neg_one), (value(&a, -1) * value(&b, -1)).unsigned_abs());
    assert_eq!(small_value(&neg_two), (value(&a, -2) * value(&b, -2)).unsigned_abs());
    let half_a: i128 = 8 * 2 + 4 * 3 + 2 * 5 + 7;
    let half_b: i128 = 8 * 11 + 4 * 13 + 2 * 17 + 19;
    assert_eq!(small_value(&half), (half_a * half_b) as u128);
    assert_eq!(signs, (value(&a, -2) * value(&b, -2) < 0, value(&a, -1) * value(&b, -1) < 0));
}

#[test]
fn toom4_writes_zero_extended_results_into_wider_destinations() {
    let a = operand(41, 5);
    let b = operand(31, 9);
    let mut expected = reference_product(&a, &b);
    expected.extend([0; 5]);
    let mut scratch = vec![Limb::MAX; Toom4::mul_scratch_len(a.len(), b.len())];
    let mut dst = vec![Limb::MAX; a.len() + b.len() + 5];
    Toom4::mul(&mut dst, &a, &b, &mut scratch);
    assert_eq!(dst, expected);

    let mut expected = reference_product(&a, &a);
    expected.extend([0; 3]);
    let mut scratch = vec![Limb::MAX; Toom4::sqr_scratch_len(a.len())];
    let mut dst = vec![Limb::MAX; 2 * a.len() + 3];
    Toom4::sqr(&mut dst, &a, &mut scratch);
    assert_eq!(dst, expected);
}
