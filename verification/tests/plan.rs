//! Regression tests for the transform-geometry planner.

use lib::limbs::LIMB_BITS;
use lib::ssa::crt::SsaCrt;
use lib::ssa::plan::{FftPlan, SsaPlan};
use lib::ssa::tuning::SSA_BASE_MODULUS_BITS;

/// Ring widths reached by the top-level Fermat product for power-of-two
/// operand widths, paired with the transform exponent the planner selects.
const MEASURED_OPTIMA: [(usize, usize); 7] = [
    (1 << 18, 7),
    (1 << 19, 8),
    (1 << 20, 9),
    (1 << 21, 10),
    (1 << 22, 10),
    (1 << 23, 11),
    (1 << 24, 12),
];

/// RAM-sized equal-width cells.
const X86_RAM_OPTIMA: [(usize, usize); 4] = [(1 << 26, 11), (1 << 27, 12), (1 << 28, 12), (1 << 29, 13)];

/// Ring widths the `mul_mod_bnm1` recursion reaches below the pinned range.
const RECURSION_RINGS: [usize; 3] = [1 << 15, 1 << 16, 1 << 17];

#[test]
fn crt_layout_rejects_unrepresentable_scratch_sizes() {
    assert_eq!(SsaCrt::layout_len(usize::MAX, 1), usize::MAX);
    assert_eq!(SsaCrt::sqr_layout_len(usize::MAX, 1), usize::MAX);
    assert_eq!(SsaCrt::mul_mod_bnm1_scratch_len(usize::MAX), usize::MAX);
}

#[test]
fn planner_matches_measured_optima() {
    for (modulus_bits, expected) in MEASURED_OPTIMA {
        let chosen = FftPlan::new(modulus_bits).transform_log;
        assert_eq!(
            chosen, expected,
            "planner chose exponent {chosen} for a {modulus_bits}-bit ring, \
             but exponent {expected} measured fastest"
        );
    }
}

#[test]
fn x86_profile_matches_measured_ram_optima() {
    for (modulus_bits, expected) in X86_RAM_OPTIMA {
        let chosen = FftPlan::new(modulus_bits).transform_log;
        assert_eq!(
            chosen, expected,
            "x86 profile chose exponent {chosen} for a {modulus_bits}-bit RAM-sized ring"
        );
    }
}

#[test]
fn chosen_geometry_keeps_pointwise_in_the_basecase() {
    let pinned = MEASURED_OPTIMA.into_iter().map(|(bits, _)| bits);
    for modulus_bits in pinned.chain(RECURSION_RINGS) {
        let plan = FftPlan::new(modulus_bits);
        assert!(
            plan.inner_bits <= SSA_BASE_MODULUS_BITS,
            "planner selected a nested inner ring of {} bits for a {modulus_bits}-bit ring",
            plan.inner_bits
        );
    }
}

#[test]
fn every_selected_plan_is_a_valid_geometry() {
    for exponent in 6_u32..30 {
        let base = 1_usize << exponent;
        for multiplier in [1_usize, 3, 5, 7, 9, 17, 31] {
            let Some(modulus_bits) = base.checked_mul(multiplier) else {
                continue;
            };
            assert_plan_is_consistent(modulus_bits);
        }
    }
}

#[test]
fn forced_geometries_agree_with_the_selected_one() {
    for (modulus_bits, _) in MEASURED_OPTIMA {
        let selected = FftPlan::new(modulus_bits);
        let exponent = u32::try_from(selected.transform_log).expect("exponent fits u32");
        let forced = FftPlan::try_forced(modulus_bits, exponent)
            .expect("the selected exponent is by construction a valid geometry");
        assert_eq!(forced.transform_len, selected.transform_len);
        assert_eq!(forced.inner_bits, selected.inner_bits);
        assert_eq!(forced.twist_step_half, selected.twist_step_half);
        assert_eq!(
            forced.transform_mul_scratch(),
            selected.transform_mul_scratch(),
            "forced and selected plans disagree on scratch for {modulus_bits} bits"
        );
    }
}

#[test]
fn planner_rejects_sub_half_efficiency_geometry() {
    let modulus_bits = 1 << 20;
    assert!(
        SsaPlan::price_geometry(12, modulus_bits, 0, false).is_none(),
        "a K=4096 split uses less than half of its aligned coefficient ring"
    );
}

#[test]
fn search_centre_is_stable_across_near_equal_widths() {
    let power_of_two = SsaPlan::search_centre(1 << 24);
    let odd_multiple = SsaPlan::search_centre(3 << 23);
    assert_eq!(
        power_of_two, odd_multiple,
        "rings of near-equal width must start the search at near-equal exponents"
    );
}

#[test]
fn search_centre_keeps_measured_optima_inside_the_search_window() {
    for (modulus_bits, measured) in MEASURED_OPTIMA {
        assert_window_reaches(modulus_bits, measured);
    }
    for (modulus_bits, measured) in X86_RAM_OPTIMA {
        assert_window_reaches(modulus_bits, measured);
    }
}

fn assert_window_reaches(modulus_bits: usize, measured: usize) {
    let centre = SsaPlan::search_centre(modulus_bits);
    let optimum = u32::try_from(measured).expect("a transform exponent fits u32");
    assert!(
        centre.abs_diff(optimum) <= 4,
        "the search window around centre {centre} does not reach the measured \
         optimum {optimum} for a {modulus_bits}-bit ring"
    );
}

#[test]
fn search_centre_does_not_drift_from_the_optimum_as_rings_grow() {
    for log2_bits in 6_u32..usize::BITS {
        let modulus_bits = 1_usize << log2_bits;
        let centre = SsaPlan::search_centre(modulus_bits);
        let classical = log2_bits.div_euclid(2);
        assert!(
            centre.abs_diff(classical) <= 1,
            "centre {centre} drifted from the classical split exponent {classical} \
             for a 2^{log2_bits}-bit ring"
        );
    }
}

#[test]
fn one_centre_serves_both_search_levels() {
    for log2_bits in 16_u32..30 {
        let modulus_bits = 1_usize << log2_bits;
        let centre = SsaPlan::search_centre(modulus_bits);
        let classical = log2_bits.div_euclid(2);
        assert_eq!(
            centre, classical,
            "the nested centre for a 2^{log2_bits}-bit ring left the classical split"
        );
    }
}

#[test]
fn basecase_cost_is_monotone_and_subquadratic() {
    let mut previous = 0;
    for limbs in 1_usize..=512 {
        let cost = SsaPlan::basecase_product_cost(limbs);
        assert!(
            cost >= previous,
            "basecase cost fell from {previous} to {cost} at {limbs} limbs"
        );
        previous = cost;
    }
    let wide = SsaPlan::basecase_product_cost(256);
    assert!(
        wide < 256_usize.saturating_mul(256),
        "basecase model is not subquadratic at 256 limbs: {wide}"
    );
}

/// The transform partitions the ring exactly, the inner ring is a whole
/// number of limbs, and it carries a root of the transform's order.
fn assert_plan_is_consistent(modulus_bits: usize) {
    let plan = FftPlan::new(modulus_bits);
    assert_eq!(
        plan.transform_len
            .checked_mul(plan.chunk_bits)
            .expect("chunk product fits"),
        modulus_bits,
        "geometry does not partition the {modulus_bits}-bit ring exactly"
    );
    assert!(
        plan.inner_bits % LIMB_BITS == 0,
        "inner ring of {} bits is not a whole number of limbs",
        plan.inner_bits
    );
    let doubled = plan
        .inner_bits
        .checked_mul(2)
        .expect("twice the ring width fits");
    assert!(
        doubled % plan.transform_len == 0,
        "inner ring of {} bits has no exact {}-th root of unity",
        plan.inner_bits,
        plan.transform_len
    );
    assert_eq!(
        plan.twist_step_half
            .checked_mul(plan.transform_len)
            .expect("root period fits"),
        doubled,
        "half-bit twist step is not exact for a {modulus_bits}-bit ring"
    );
    assert!(
        plan.twist_step_half > 0,
        "root step collapsed to zero for a {modulus_bits}-bit ring"
    );
}

#[test]
fn crt_half_width_grows_with_the_required_bits() {
    let mut previous = 0usize;
    for bits in (0..200_000usize).step_by(977) {
        let width = SsaPlan::crt_half_width(bits).expect("a half-width exists for moderate widths");
        assert!(width >= previous, "{bits} bits");
        previous = width;
    }
}

#[test]
fn two_point_is_the_exponent_one_geometry() {
    for modulus_bits in [64usize, 512, 4096, SSA_BASE_MODULUS_BITS - 64, 16_448, 1 << 20, 3 << 18] {
        let two = lib::ssa::plan::Geometry::two_point(modulus_bits);
        let one = lib::ssa::plan::Geometry::for_exponent(1, modulus_bits, true).expect("exponent one fits");
        assert_eq!(two.transform_len, one.transform_len);
        assert_eq!(two.transform_log, one.transform_log);
        assert_eq!(two.chunk_bits, one.chunk_bits);
        assert_eq!(two.inner_bits, one.inner_bits);
        assert_eq!(two.twist_step_half, one.twist_step_half);
        assert_eq!(two.whole_step, one.whole_step);
    }
}

#[test]
fn square_transforms_need_no_more_scratch_than_products() {
    for modulus_bits in [1usize << 15, 1 << 17, 3 << 14] {
        let plan = FftPlan::new(modulus_bits);
        for slots in [0usize, 1, 2, 4, 8] {
            assert!(plan.transform_sqr_scratch_for_slots(slots) <= plan.transform_mul_scratch_for_slots(slots));
        }
    }
}

#[test]
fn two_point_above_the_basecase_keeps_exponent_one_widths() {
    let two = lib::ssa::plan::Geometry::two_point(16_448);
    assert_eq!(two.transform_len, 2);
    assert_eq!(two.chunk_bits, 8224);
    assert_eq!(two.inner_bits, 16_896);
    assert_eq!(two.twist_step_half, 16_896);
}

#[test]
fn best_exponent_prices_the_trailing_zero_exponent() {
    // 64 * 1001 bits has six trailing zeros; exponent six divides the width
    // and must be among the priced candidates.
    let modulus_bits = 64 * 1001;
    let (best_cost, best) = SsaPlan::best_exponent(modulus_bits, 0).expect("a geometry exists");
    for whole_step in [false, true] {
        if let Some((cost, geometry)) = SsaPlan::price_geometry(6, modulus_bits, 0, whole_step) {
            assert_eq!(geometry.transform_log, 6);
            assert!(best_cost <= cost, "whole_step = {whole_step}");
        }
    }
    for exponent in 1..=6u32 {
        for whole_step in [false, true] {
            if let Some((cost, _)) = SsaPlan::price_geometry(exponent, modulus_bits, 0, whole_step) {
                assert!(best_cost <= cost, "exponent {exponent}");
            }
        }
    }
    assert!(best.transform_log >= 1 && best.transform_log <= 6);
    assert!(SsaPlan::price_geometry(7, modulus_bits, 0, false).is_none());
    assert!(SsaPlan::price_geometry(7, modulus_bits, 0, true).is_none());
}

#[test]
fn forcing_the_selected_exponent_rebuilds_the_selected_plan() {
    for modulus_bits in [1usize << 15, 3 << 14, 64 * 1001, 1 << 20] {
        let plan = FftPlan::new(modulus_bits);
        let forced = FftPlan::try_forced(modulus_bits, plan.transform_log as u32).expect("selected exponent is valid");
        assert_eq!(forced.transform_len, plan.transform_len);
        assert_eq!(forced.chunk_bits, plan.chunk_bits);
        assert_eq!(forced.inner_bits, plan.inner_bits);
        assert_eq!(forced.twist_step_half, plan.twist_step_half);
        assert_eq!(forced.mat_limbs, plan.mat_limbs);
        assert_eq!(forced.recon_len, plan.recon_len);
    }
}

#[test]
fn crt_half_width_exists_and_is_monotone_at_large_widths() {
    let widths = [1usize << 20, (1 << 20) + 1, 1 << 30, (1 << 30) + 12_345, usize::MAX / 2, usize::MAX];
    let mut previous = 0usize;
    for bits in widths {
        let width = SsaPlan::crt_half_width(bits).expect("every word-sized width has a half-width");
        assert!(width >= previous, "{bits} bits");
        assert!(width >= bits / 128, "{bits} bits");
        previous = width;
    }
}
