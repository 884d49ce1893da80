//! End-to-end checks of the tier's products against an independent
//! schoolbook product written here.

use lib::ssa::entry::{Ssa, TransformChoice};
use lib::ssa::prepared::SsaMultiplicationPlan;
use lib::ssa::square_plan::SsaSquaringPlan;
use lib::ssa::tuning::SSA_BASE_MODULUS_BITS;

type Limb = u64;

const LIMB_BITS: usize = 64;

/// Reference product, one limb at a time.
fn schoolbook(dst: &mut [Limb], a: &[Limb], b: &[Limb]) {
    for limb in dst.iter_mut() {
        *limb = 0;
    }
    for (i, &x) in a.iter().enumerate() {
        let mut carry: u128 = 0;
        for (j, &y) in b.iter().enumerate() {
            let t = u128::from(x) * u128::from(y) + u128::from(dst[i + j]) + carry;
            dst[i + j] = t as u64;
            carry = t >> 64;
        }
        let mut k = i + b.len();
        while carry != 0 {
            let t = u128::from(dst[k]) + carry;
            dst[k] = t as u64;
            carry = t >> 64;
            k += 1;
        }
    }
}

#[test]
fn ssa_matches_schoolbook_at_non_power_of_two_widths() {
    const WIDTHS: [(usize, usize); 10] = [
        (384, 384),
        (512, 512),
        (640, 640),
        (768, 768),
        (896, 896),
        (1_024, 1_024),
        (1_088, 1_088),
        (1_280, 1_280),
        (1_536, 1_536),
        (768, 512),
    ];

    for (len_a, len_b) in WIDTHS {
        let a: Vec<Limb> = (0..len_a)
            .map(|index: usize| {
                Limb::MAX
                    .wrapping_sub((index as u64).wrapping_mul(0x9E37_79B9))
                    .rotate_left(7)
            })
            .collect();
        let b: Vec<Limb> = (0..len_b)
            .map(|index: usize| {
                Limb::MAX
                    .wrapping_sub((index as u64).wrapping_mul(0x85EB_CA6B))
                    .rotate_left(11)
            })
            .collect();

        let result_len = len_a + len_b;
        let mut expected = vec![0; result_len];
        let mut actual = vec![Limb::MAX; result_len];
        schoolbook(&mut expected, &a, &b);
        assert!(
            Ssa::try_mul_with_executor(&mut actual, &a, &b, TransformChoice::forced(), None, 1),
            "SSA declined a {len_a} x {len_b} limb product"
        );
        assert_eq!(
            actual, expected,
            "SSA disagreed with schoolbook at {len_a} x {len_b} limbs"
        );
    }
}

#[test]
fn prepared_ssa_product_reuses_exact_parallel_scratch() {
    let len = SSA_BASE_MODULUS_BITS / LIMB_BITS + 1;
    let mut a: Vec<Limb> = (0..len)
        .map(|index: usize| Limb::MAX.wrapping_sub((index as u64).wrapping_mul(0x9E37_79B9)))
        .collect();
    let mut b: Vec<Limb> = (0..len)
        .map(|index: usize| Limb::MAX.wrapping_sub((index as u64).wrapping_mul(0x85EB_CA6B)))
        .collect();
    let high_bit: Limb = 1 << 63;
    *a.last_mut().expect("prepared operand is nonempty") |= high_bit;
    *b.last_mut().expect("prepared operand is nonempty") |= high_bit;

    let plan = SsaMultiplicationPlan::try_new(&a, &b, TransformChoice::forced(), 8)
        .expect("the forced prepared geometry is valid");
    let mut scratch = vec![Limb::MAX; plan.scratch_len()];
    let mut expected = vec![Limb::MIN; plan.destination_len()];
    let mut first = vec![Limb::MIN; plan.destination_len()];
    let mut second = vec![Limb::MIN; plan.destination_len()];
    schoolbook(&mut expected, &a, &b);

    plan.run_with_scratch(&mut first, &mut scratch);
    plan.run_with_scratch(&mut second, &mut scratch);

    assert_eq!(first, expected);
    assert_eq!(second, expected);
}

#[test]
fn prepared_ssa_square_reuses_exact_scratch() {
    let len = SSA_BASE_MODULUS_BITS / LIMB_BITS + 1;
    let a: Vec<Limb> = (0..len)
        .map(|index: usize| Limb::MAX.wrapping_sub((index as u64).wrapping_mul(0x9E37_79B9)))
        .collect();
    let plan = SsaSquaringPlan::try_new(&a, TransformChoice::forced(), 1)
        .expect("the forced prepared square geometry is valid");
    let mut scratch = vec![Limb::MAX; plan.scratch_len()];
    let mut expected = vec![Limb::MIN; len * 2];
    let mut first = vec![Limb::MIN; expected.len()];
    let mut second = vec![Limb::MIN; expected.len()];
    schoolbook(&mut expected, &a, &a);

    plan.run_with_scratch(&mut first, &mut scratch);
    plan.run_with_scratch(&mut second, &mut scratch);

    assert_eq!(first, expected);
    assert_eq!(second, expected);
}

#[test]
fn ssa_square_matches_schoolbook() {
    const WIDTHS: [usize; 6] = [64, 192, 256, 384, 512, 640];

    for len in WIDTHS {
        let a: Vec<Limb> = (0..len)
            .map(|index: usize| {
                Limb::MAX
                    .wrapping_sub((index as u64).wrapping_mul(0xC2B2_AE3D))
                    .rotate_left(13)
            })
            .collect();

        let result_len = len * 2;
        let mut expected = vec![0; result_len];
        let mut actual = vec![Limb::MAX; result_len];
        schoolbook(&mut expected, &a, &a);
        assert!(
            Ssa::try_sqr_with_executor(&mut actual, &a, TransformChoice::forced(), None, 1),
            "SSA declined a {len}-limb square"
        );
        assert_eq!(
            actual, expected,
            "SSA squaring disagreed with schoolbook at {len} limbs"
        );
    }
}

#[test]
fn product_with_zero_operand_is_zero() {
    let a = vec![0 as Limb; 40];
    let b: Vec<Limb> = (1..=40).collect();
    let mut dst = vec![7 as Limb; 80];
    assert!(Ssa::try_mul_with_executor(&mut dst, &a, &b, TransformChoice::planned(), None, 1));
    assert!(dst.iter().all(|limb| *limb == 0));
}

#[test]
fn short_destination_is_refused_and_left_alone() {
    let a: Vec<Limb> = (1..=10).collect();
    let b: Vec<Limb> = (1..=10).collect();
    let mut dst = vec![9 as Limb; 19];
    assert!(!Ssa::try_mul_with_executor(&mut dst, &a, &b, TransformChoice::planned(), None, 1));
    assert_eq!(dst, vec![9 as Limb; 19]);
}

#[test]
fn product_with_dirty_short_scratch_allocates() {
    let a: Vec<Limb> = (0..300).map(|i: u64| i.wrapping_mul(0x1234_5678_9ABC_DEF1) | 1).collect();
    let b: Vec<Limb> = (0..200).map(|i: u64| !i.wrapping_mul(0x0FED_CBA9_8765_4321)).collect();
    let mut expected = vec![0; 500];
    schoolbook(&mut expected, &a, &b);
    let mut short = vec![Limb::MAX; 3];
    let mut actual = vec![Limb::MAX; 500];
    assert!(Ssa::try_mul_with_executor(
        &mut actual,
        &a,
        &b,
        TransformChoice::planned(),
        Some(&mut short),
        1
    ));
    assert_eq!(actual, expected);
}

#[test]
fn empty_square_zeroes_the_destination() {
    let mut dst = vec![5 as Limb; 4];
    assert!(Ssa::try_sqr_with_executor(&mut dst, &[], TransformChoice::planned(), None, 1));
    assert_eq!(dst, vec![0; 4]);
}

#[test]
fn longer_destination_is_zero_extended() {
    let a: Vec<Limb> = vec![u64::MAX; 50];
    let b: Vec<Limb> = vec![u64::MAX; 50];
    let mut expected = vec![0; 120];
    schoolbook(&mut expected[..100], &a, &b);
    let mut actual = vec![3 as Limb; 120];
    assert!(Ssa::try_mul_with_executor(&mut actual, &a, &b, TransformChoice::planned(), None, 1));
    assert_eq!(actual, expected);
}

#[test]
fn admission_matches_the_crt_split() {
    assert!(Ssa::admits_mul(1, 1));
    assert!(Ssa::admits_sqr(4096));
    assert!(!Ssa::admits_mul(usize::MAX, 1));
    assert!(!Ssa::admits_sqr(usize::MAX));
}

#[test]
fn scratch_lengths_cover_the_plans() {
    let a: Vec<Limb> = vec![u64::MAX; 1000];
    let plan = SsaMultiplicationPlan::try_new(&a, &a, TransformChoice::forced(), 1).expect("plan");
    assert!(Ssa::mul_scratch_len(1000, 1000) >= plan.scratch_len());
    let square = SsaSquaringPlan::try_new(&a, TransformChoice::forced(), 1).expect("plan");
    assert!(Ssa::sqr_scratch_len(1000) >= square.scratch_len());
    assert_eq!(Ssa::mul_scratch_len(usize::MAX, 1), 0);
    assert_eq!(Ssa::sqr_scratch_len(usize::MAX), 0);
}
