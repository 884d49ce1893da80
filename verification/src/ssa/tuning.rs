//! Tuning constants of the SSA tier.
//!
//! Portable constants follow from the algorithm's structure; the others trade
//! one machine-dependent cost against another and carry the x86-64 profile.

use vstd::prelude::*;

verus! {

/// Widest Fermat ring whose pointwise products stay in the multiplication
/// tower instead of nesting another transform.
pub const SSA_BASE_MODULUS_BITS: usize = 16384;

/// Cost of one coefficient visit relative to one limb of multiplication.
pub const SSA_COEFFICIENT_VISIT_OVERHEAD: usize = 8;

/// Position of the lower-tower model between `n^1.5` (0) and `n^1.75` (16).
pub const SSA_BASECASE_COST_WEIGHT_16THS: usize = 12;

/// Charge, in sixteenths, for a nested transform beyond its modelled arithmetic.
pub const SSA_NESTED_COST_PENALTY_16THS: usize = 28;

/// Arithmetic passes a half-step `sqrt(2)` twist adds across both transforms.
pub const SSA_SQRT2_TWIST_PASSES: usize = 4;

/// Depth at which the cost model prices every remaining ring with the basecase.
pub const MAX_COST_RECURSION_DEPTH: u32 = 6;

/// Width at which the `B^n - 1` recursion stops halving and multiplies exactly.
pub const SSA_BNM1_BASECASE_LIMBS: usize = 32;

/// Ring width from which a factor-three split of the Fermat modulus pays.
pub const SSA_NEGACYCLIC_FACTOR3_THRESHOLD: usize = 48;

/// Ring width from which a factor-five split of the Fermat modulus pays.
pub const SSA_NEGACYCLIC_FACTOR5_THRESHOLD: usize = 80;

/// Estimated limb work per worker below which a transform does not fork.
pub const SSA_PARALLEL_MIN_LIMB_WORK: usize = 16384;

} // verus!
