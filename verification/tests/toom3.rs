//! The three-way tier against an independent schoolbook product.

use lib::eval::SharedEval;
use lib::toom3::{Toom3, SQR_TOOM_COOK_THRESHOLD, TOOM_COOK_THRESHOLD};
use lib::toom32::Toom32;

type Limb = u64;

fn reference_product(a: &[Limb], b: &[Limb]) -> Vec<Limb> {
    let mut dst = vec![0; a.len() + b.len()];
    for (i, &x) in a.iter().enumerate() {
        let mut carry: u128 = 0;
        for (j, &y) in b.iter().enumerate() {
            let t = u128::from(x) * u128::from(y) + u128::from(dst[i + j]) + carry;
            dst[i + j] = t as u64;
            carry = t >> 64;
        }
        let mut k = i + b.len();
        while carry != 0 {
            let t = u128::from(dst[k]) + carry;
            dst[k] = t as u64;
            carry = t >> 64;
            k += 1;
        }
    }
    dst
}

fn operand(len: usize, seed: u64) -> Vec<Limb> {
    let mut state = seed;
    (0..len)
        .map(|_| {
            state = state.wrapping_mul(6364136223846793005).wrapping_add(1442695040888963407);
            state ^ (state >> 29)
        })
        .collect()
}

#[test]
fn toom3_forced_product_matches_reference_across_shapes() {
    for (len_a, len_b) in [(3, 3), (4, 4), (5, 3), (9, 9), (10, 7), (30, 12), (64, 64), (100, 3), (97, 96)] {
        let a = operand(len_a, 11 + len_a as u64);
        let b = operand(len_b, 29 + len_b as u64);
        let mut scratch = vec![Limb::MAX; Toom3::mul_forced_scratch_len(len_a, len_b)];
        let mut dst = vec![Limb::MAX; len_a + len_b];
        Toom3::mul_forced(&mut dst, &a, &b, &mut scratch);
        assert_eq!(dst, reference_product(&a, &b), "{len_a} x {len_b}");
    }
}

#[test]
fn toom3_product_above_threshold_matches_reference() {
    let len = TOOM_COOK_THRESHOLD * 3 + 5;
    let a = operand(len, 3);
    let b = operand(len - 40, 5);
    let mut scratch = vec![0; Toom3::mul_forced_scratch_len(a.len(), b.len())];
    let mut dst = vec![0; a.len() + b.len()];
    Toom3::mul(&mut dst, &a, &b, &mut scratch);
    assert_eq!(dst, reference_product(&a, &b));
}

#[test]
fn toom3_all_ones_operands_hit_every_carry() {
    let a = vec![u64::MAX; 50];
    let b = vec![u64::MAX; 47];
    let mut scratch = vec![0; Toom3::mul_forced_scratch_len(50, 47)];
    let mut dst = vec![0; 97];
    Toom3::mul_forced(&mut dst, &a, &b, &mut scratch);
    assert_eq!(dst, reference_product(&a, &b));
}

#[test]
fn toom3_squares_match_reference() {
    for len in [3, 7, 20, 65, SQR_TOOM_COOK_THRESHOLD + 9] {
        let a = operand(len, 77 + len as u64);
        let mut scratch = vec![Limb::MAX; Toom3::sqr_forced_scratch_len(len)];
        let mut forced = vec![0; 2 * len];
        Toom3::sqr_forced(&mut forced, &a, &mut scratch);
        assert_eq!(forced, reference_product(&a, &a), "{len}");
        let mut tiered = vec![0; 2 * len];
        Toom3::sqr(&mut tiered, &a, &mut scratch);
        assert_eq!(tiered, forced);
    }
}

#[test]
fn split_three_cuts_parts_of_the_split_width() {
    let values: Vec<Limb> = (1..=10).collect();
    let (p0, p1, p2) = Toom3::split_three(&values, 4);
    assert_eq!((p0, p1, p2), (&values[..4], &values[4..8], &values[8..]));
    let (q0, q1, q2) = Toom3::split_three(&values[..6], 4);
    assert_eq!((q0.len(), q1.len(), q2.len()), (4, 2, 0));
    let (r0, r1, r2) = Toom3::split_three(&values[..3], 4);
    assert_eq!((r0.len(), r1.len(), r2.len()), (3, 0, 0));
}

#[test]
fn evaluation_at_minus_one_reports_its_sign() {
    let mut positive = vec![0; 3];
    let mut negative = vec![0; 3];
    // 5 - 9 + 1 = -3
    let flipped = Toom3::evaluate_one_and_negative_one(&mut positive, &mut negative, &[5, 0], &[9, 0], &[1]);
    assert!(flipped);
    assert_eq!(positive, vec![15, 0, 0]);
    assert_eq!(negative, vec![3, 0, 0]);
    let flipped = Toom3::evaluate_one_and_negative_one(&mut positive, &mut negative, &[9, 0], &[5, 0], &[1]);
    assert!(!flipped);
    assert_eq!(negative, vec![5, 0, 0]);
}

#[test]
fn evaluation_at_two_adds_linear_and_three_quadratic() {
    let mut value = vec![10, 0];
    Toom3::evaluate_two_from_one(&mut value, &[1], &[u64::MAX]);
    // 10 + 1 + 3 * (2^64 - 1) = 3 * 2^64 + 8
    assert_eq!(value, vec![8, 3]);
}

#[test]
fn local_scratch_len_is_three_products_and_two_evaluations() {
    assert_eq!(Toom3::local_scratch_len(10, 7), 3 * 21 + 2 * 11 + 7);
}

#[test]
fn word_division_returns_quotient_and_remainder() {
    let mut x = vec![7, 1];
    // (2^64 + 7) = 3 * 6148914691236517207 + 2
    let r = SharedEval::div_word_in_place(&mut x, 3);
    assert_eq!(r, 2);
    assert_eq!(x, vec![6148914691236517207, 0]);
}

#[test]
fn negation_is_twos_complement() {
    let mut x = vec![1, 0];
    SharedEval::negate_in_place(&mut x);
    assert_eq!(x, vec![u64::MAX, u64::MAX]);
    let mut zero = vec![0, 0];
    SharedEval::negate_in_place(&mut zero);
    assert_eq!(zero, vec![0, 0]);
}

#[test]
fn coefficient_lands_at_its_offset() {
    let mut dst = vec![u64::MAX, 0, 0, 0];
    SharedEval::add_coefficient_in_place(&mut dst, &[1, 2, 0, 0], 1);
    assert_eq!(dst, vec![u64::MAX, 1, 2, 0]);
    let mut dst = vec![u64::MAX, u64::MAX, 0];
    SharedEval::add_mul_word_at(&mut dst, &[1], 3, 0);
    assert_eq!(dst, vec![2, 0, 1]);
}

#[test]
fn toom32_matches_reference_across_the_admitted_band() {
    let mut checked = 0;
    for larger in [9_usize, 10, 11, 30, 64, 100, 301] {
        for smaller in 1..=larger {
            if !Toom32::suitable(larger, smaller) {
                continue;
            }
            let a = operand(larger, larger as u64);
            let b = operand(smaller, 1000 + smaller as u64);
            let mut scratch = vec![Limb::MAX; Toom32::mul_scratch_len(larger, smaller)];
            let mut forward = vec![Limb::MAX; larger + smaller];
            Toom32::mul(&mut forward, &a, &b, &mut scratch);
            assert_eq!(forward, reference_product(&a, &b), "{larger} x {smaller}");
            let mut reversed = vec![0; larger + smaller];
            Toom32::mul(&mut reversed, &b, &a, &mut scratch);
            assert_eq!(reversed, forward);
            checked += 1;
        }
    }
    assert!(checked > 0);
}

#[test]
fn toom32_admits_exactly_three_by_two_shapes() {
    for larger in 2_usize..200 {
        for smaller in 1..=larger {
            let split_len = (larger + 2) / 3;
            let expected = larger > 2 * split_len && smaller > split_len && smaller <= 2 * split_len;
            assert_eq!(Toom32::suitable(larger, smaller), expected, "{larger}x{smaller}");
            assert_eq!(Toom32::suitable(smaller, larger), expected);
        }
    }
}

#[test]
fn toom32_two_part_evaluation_reports_sign() {
    let mut positive = vec![0; 2];
    let mut negative = vec![0; 2];
    assert!(Toom32::evaluate_one_and_negative_one(&mut positive, &mut negative, &[3], &[8]));
    assert_eq!((positive.clone(), negative.clone()), (vec![11, 0], vec![5, 0]));
    assert!(!Toom32::evaluate_one_and_negative_one(&mut positive, &mut negative, &[8], &[3]));
    assert_eq!(negative, vec![5, 0]);
}

#[test]
fn toom32_local_scratch_is_eight_evaluations() {
    assert_eq!(Toom32::local_scratch_len(10, 5), 8 * 11 + 5);
}

#[test]
fn toom3_writes_zero_extended_results_into_wider_destinations() {
    let len = TOOM_COOK_THRESHOLD * 3 + 5;
    let a = operand(len, 13);
    let b = operand(len - 7, 17);
    let mut expected = reference_product(&a, &b);
    expected.extend([0; 4]);
    let mut scratch = vec![Limb::MAX; Toom3::mul_forced_scratch_len(a.len(), b.len())];
    let mut dst = vec![Limb::MAX; a.len() + b.len() + 4];
    Toom3::mul(&mut dst, &a, &b, &mut scratch);
    assert_eq!(dst, expected);

    let sq_len = SQR_TOOM_COOK_THRESHOLD + 9;
    let c = operand(sq_len, 23);
    let mut expected = reference_product(&c, &c);
    expected.extend([0; 2]);
    let mut scratch = vec![Limb::MAX; Toom3::sqr_forced_scratch_len(sq_len)];
    let mut dst = vec![Limb::MAX; 2 * sq_len + 2];
    Toom3::sqr(&mut dst, &c, &mut scratch);
    assert_eq!(dst, expected);
}

#[test]
fn toom3_forced_paths_zero_extend_into_wider_destinations() {
    let a = operand(10, 3);
    let b = operand(7, 4);
    let mut expected = reference_product(&a, &b);
    expected.extend([0; 3]);
    let mut scratch = vec![Limb::MAX; Toom3::mul_forced_scratch_len(a.len(), b.len())];
    let mut dst = vec![Limb::MAX; a.len() + b.len() + 3];
    Toom3::mul_forced(&mut dst, &a, &b, &mut scratch);
    assert_eq!(dst, expected);

    let mut expected = reference_product(&a, &a);
    expected.push(0);
    let mut scratch = vec![Limb::MAX; Toom3::sqr_forced_scratch_len(a.len())];
    let mut dst = vec![Limb::MAX; 2 * a.len() + 1];
    Toom3::sqr_forced(&mut dst, &a, &mut scratch);
    assert_eq!(dst, expected);
}
