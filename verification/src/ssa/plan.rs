//! FFT geometry selection and scratch planning for recursive Fermat-ring SSA.
//!
//! The planner picks the radix-2 transform length for a Fermat ring
//! `Z/(2^modulus_bits + 1)` by minimising a closed-form cost model. The model
//! is recursive: the pointwise stage of a transform is priced by planning the
//! inner ring it would produce.

use crate::num::{
    ceil_div, lemma_floor_log2_unique, checked_pow2, opt_nat, div_ceil, floor_log2, ilog2, is_isqrt, isqrt, lemma_two_pow_64,
    lemma_two_pow_monotone, lemma_two_pow_pos, sat, saturating_mul, spec_isqrt, spec_max,
    trailing_zero_count, trailing_zeros, two_pow,
};
use crate::ssa::pointwise::SsaPointwise;
use crate::ssa::tuning::{
    MAX_COST_RECURSION_DEPTH, SSA_BASECASE_COST_WEIGHT_16THS, SSA_BASE_MODULUS_BITS,
    SSA_BNM1_BASECASE_LIMBS, SSA_COEFFICIENT_VISIT_OVERHEAD, SSA_NESTED_COST_PENALTY_16THS,
    SSA_SQRT2_TWIST_PASSES,
};
use vstd::arithmetic::div_mod::*;
use vstd::arithmetic::mul::*;
use vstd::prelude::*;

verus! {

/// Rounds `x` up to a multiple of a positive `unit`.
pub open spec fn round_up(x: nat, unit: nat) -> nat {
    ceil_div(x, unit) * unit
}

/// Centre of the transform-exponent search: `max(floor(log2(bits)) / 2, 1)`.
pub open spec fn spec_search_centre(modulus_bits: nat) -> nat {
    if modulus_bits == 0 {
        1
    } else {
        spec_max((floor_log2(modulus_bits) / 2) as int, 1) as nat
    }
}

/// The lower-tower cost model, interpolated between `n^1.5` and `n^1.75`.
pub open spec fn spec_basecase_product_cost(coefficient_limbs: nat) -> nat {
    let three_halves = sat((coefficient_limbs * spec_isqrt(coefficient_limbs)) as int);
    let seven_fourths = sat((coefficient_limbs * spec_isqrt(three_halves)) as int);
    let interpolation = sat(spec_max(seven_fourths - three_halves, 0)
        * SSA_BASECASE_COST_WEIGHT_16THS) / 16;
    sat((three_halves + interpolation) as int)
}

/// The smallest CRT half-width that can carry a `required_bits`-wide product.
pub open spec fn crt_minimum(required_bits: nat) -> nat {
    spec_max(ceil_div(required_bits, 128) as int, 2) as nat
}

/// Scans the power-of-two steps from `2^step_log` upwards for the smallest
/// multiple of a step whose block count fits the basecase.
pub open spec fn crt_scan(minimum: nat, step_log: nat, winner: Option<nat>) -> Option<nat>
    decreases 64 - step_log,
{
    if step_log >= 64 || two_pow(step_log) > usize::MAX || two_pow(step_log) > minimum {
        winner
    } else {
        let step = two_pow(step_log);
        let blocks = ceil_div(minimum, step);
        let candidate = blocks * step;
        let next = if blocks <= SSA_BNM1_BASECASE_LIMBS && candidate <= usize::MAX && (winner is None
            || candidate < winner.unwrap()) {
            Some(candidate)
        } else {
            winner
        };
        crt_scan(minimum, step_log + 1, next)
    }
}

/// The CRT half-width the planner selects for a `required_bits`-wide product.
pub open spec fn spec_crt_half_width(required_bits: nat) -> Option<nat> {
    let minimum = crt_minimum(required_bits);
    if minimum <= SSA_BNM1_BASECASE_LIMBS {
        Some(minimum)
    } else {
        crt_scan(minimum, 0, None)
    }
}

/// The `B^n - 1` recursion can halve `n` down to the basecase through even widths only.
pub open spec fn halvable(n: nat) -> bool
    decreases n,
{
    n <= SSA_BNM1_BASECASE_LIMBS || (n % 2 == 0 && n > 0 && halvable(n / 2))
}

/// `blocks * 2^s` halves evenly down to `blocks` when `blocks` fits the basecase.
pub proof fn lemma_block_multiple_halvable(blocks: nat, s: nat)
    requires
        1 <= blocks <= SSA_BNM1_BASECASE_LIMBS,
    ensures
        halvable(blocks * two_pow(s)),
    decreases s,
{
    if s > 0 {
        lemma_block_multiple_halvable(blocks, (s - 1) as nat);
        lemma_two_pow_pos((s - 1) as nat);
        let h = blocks * two_pow((s - 1) as nat);
        assert(blocks * two_pow(s) == 2 * h) by (nonlinear_arith)
            requires
                two_pow(s) == 2 * two_pow((s - 1) as nat),
                h == blocks * two_pow((s - 1) as nat),
        ;
        lemma_mul_increases(blocks as int, two_pow((s - 1) as nat) as int);
        lemma_mul_is_commutative(blocks as int, two_pow((s - 1) as nat) as int);
        assert((2 * h) / 2 == h);
        assert(halvable(2 * h));
    } else {
        assert(two_pow(0) == 1);
        lemma_mul_basics(blocks as int);
        assert(blocks * two_pow(s) == blocks);
    }
}

/// Every half-width the scan can return covers the minimum and halves evenly.
proof fn lemma_crt_scan_sound(minimum: nat, step_log: nat, winner: Option<nat>)
    requires
        winner is Some ==> winner.unwrap() >= minimum && halvable(winner.unwrap()),
        minimum >= 1,
    ensures
        crt_scan(minimum, step_log, winner) is Some ==> crt_scan(minimum, step_log, winner).unwrap()
            >= minimum && halvable(crt_scan(minimum, step_log, winner).unwrap()),
    decreases 64 - step_log,
{
    if step_log >= 64 || two_pow(step_log) > usize::MAX || two_pow(step_log) > minimum {
    } else {
        let step = two_pow(step_log);
        let blocks = ceil_div(minimum, step);
        lemma_two_pow_pos(step_log);
        lemma_fundamental_div_mod((minimum + step - 1) as int, step as int);
        let candidate = blocks * step;
        assert(candidate >= minimum) by (nonlinear_arith)
            requires
                blocks == (minimum + step - 1) / (step as int),
                (minimum + step - 1) == step * ((minimum + step - 1) / (step as int)) + (minimum
                    + step - 1) % (step as int),
                (minimum + step - 1) % (step as int) < step,
                candidate == blocks * step,
        ;
        if blocks <= SSA_BNM1_BASECASE_LIMBS {
            assert(blocks >= 1) by (nonlinear_arith)
                requires
                    candidate >= minimum,
                    minimum >= 1,
                    candidate == blocks * step,
            ;
            lemma_block_multiple_halvable(blocks, step_log);
        }
        let next = if blocks <= SSA_BNM1_BASECASE_LIMBS && candidate <= usize::MAX && (winner is None
            || candidate < winner.unwrap()) {
            Some(candidate)
        } else {
            winner
        };
        lemma_crt_scan_sound(minimum, step_log + 1, next);
    }
}

/// The geometric core of a plan: everything derived purely from the transform
/// exponent and the ring width, with no scratch accounting.
#[derive(Clone, Copy, Debug)]
pub struct Geometry {
    pub transform_len: usize,
    pub transform_log: usize,
    pub chunk_bits: usize,
    pub inner_bits: usize,
    pub twist_step_half: usize,
    pub whole_step: bool,
}

/// `a + b` wrapped around the word width.
pub open spec fn wrap_add(a: nat, b: nat) -> nat {
    if a + b > usize::MAX {
        (a + b - (usize::MAX + 1)) as nat
    } else {
        a + b
    }
}

/// Scans `2^k, 2^(k+1), ...` for the first power of two at least `x`.
pub open spec fn next_pow2_from(x: nat, k: nat) -> Option<nat>
    decreases 64 - k,
{
    if two_pow(k) > usize::MAX {
        None
    } else if two_pow(k) >= x {
        Some(two_pow(k))
    } else if k >= 64 {
        None
    } else {
        next_pow2_from(x, k + 1)
    }
}

/// The least power of two at least `x`, when it fits a word.
pub open spec fn spec_next_pow2(x: nat) -> Option<nat> {
    next_pow2_from(x, 0)
}

/// Rounds a nested inner ring up to a multiple of the transform length the
/// nested planner may choose, iterated to a fixed point.
pub open spec fn spec_nested_ring_bits(width: nat, alignment: nat) -> Option<nat>
    decreases usize::MAX - width,
{
    let nested_log = spec_search_centre(width) + 2;
    let nested_len = if two_pow(nested_log) <= usize::MAX {
        two_pow(nested_log)
    } else {
        1
    };
    let unit = spec_max(spec_max(alignment as int, nested_len as int), 64) as nat;
    if width + unit - 1 > usize::MAX {
        None
    } else {
        let rounded = round_up(width, unit);
        if rounded > width && rounded <= usize::MAX {
            spec_nested_ring_bits(rounded, alignment)
        } else {
            Some(width)
        }
    }
}

/// The inner ring for an aligned coefficient bound: the bound itself up to
/// the basecase width, a nested-plannable width above it.
pub open spec fn spec_inner_ring(aligned: nat, alignment: nat) -> Option<nat> {
    if aligned <= SSA_BASE_MODULUS_BITS {
        Some(aligned)
    } else {
        spec_nested_ring_bits(aligned, alignment)
    }
}

/// The geometry of one transform exponent, or `None` when the exponent
/// cannot produce a usable Fermat transform for this ring.
pub open spec fn spec_for_exponent(exponent: nat, modulus_bits: nat, whole_step: bool) -> Option<
    Geometry,
> {
    let transform_len = two_pow(exponent);
    if transform_len > usize::MAX || transform_len < 2 || modulus_bits % transform_len != 0 {
        None
    } else {
        let chunk_bits = modulus_bits / transform_len;
        let inner_bound = chunk_bits * 2 + exponent;
        let step_alignment = if whole_step {
            transform_len
        } else {
            transform_len / 2
        };
        let alignment = spec_max(step_alignment as int, 64) as nat;
        if chunk_bits == 0 || inner_bound > usize::MAX || inner_bound + alignment - 1 > usize::MAX {
            None
        } else {
            match spec_inner_ring(round_up(inner_bound, alignment), alignment) {
                None => None,
                Some(inner_bits) => {
                    if inner_bits * 2 > usize::MAX || inner_bits < transform_len / 2 || (inner_bits
                        * 2) % transform_len != 0 {
                        None
                    } else {
                        Some(
                            Geometry {
                                transform_len: transform_len as usize,
                                transform_log: exponent as usize,
                                chunk_bits: chunk_bits as usize,
                                inner_bits: inner_bits as usize,
                                twist_step_half: ((inner_bits * 2) / transform_len) as usize,
                                whole_step,
                            },
                        )
                    }
                },
            }
        }
    }
}

/// The two-point transform the planner falls back on: the exponent-one
/// geometry, or, for a ring so wide that exponent one does not fit a word,
/// the direct two-point layout.
pub open spec fn spec_two_point(modulus_bits: nat) -> Geometry {
    match spec_for_exponent(1, modulus_bits, true) {
        Some(g) => g,
        None => spec_two_point_direct(modulus_bits),
    }
}

/// The two-point layout built without the exponent search: half-width
/// chunks in a ring one limb wider, or the next power of two above the
/// basecase width.
pub open spec fn spec_two_point_direct(modulus_bits: nat) -> Geometry {
    let aligned = wrap_add(modulus_bits, 64);
    let inner_bits = if aligned <= SSA_BASE_MODULUS_BITS {
        aligned
    } else {
        match spec_next_pow2(wrap_add(modulus_bits, 1)) {
            Some(p) => p,
            None => aligned,
        }
    };
    Geometry {
        transform_len: 2,
        transform_log: 1,
        chunk_bits: (modulus_bits / 2) as usize,
        inner_bits: inner_bits as usize,
        twist_step_half: inner_bits as usize,
        whole_step: true,
    }
}

/// Step `2^s` can carry a half-width of at least `m`: it is a word, at most
/// `m`, and the least multiple of it reaching `m` has at most the basecase
/// block count and is a word.
pub open spec fn crt_step_valid(m: nat, s: nat) -> bool {
    &&& s < 64
    &&& two_pow(s) <= usize::MAX
    &&& two_pow(s) <= m
    &&& ceil_div(m, two_pow(s)) <= SSA_BNM1_BASECASE_LIMBS
    &&& ceil_div(m, two_pow(s)) * two_pow(s) <= usize::MAX
}

/// The least multiple of `2^s` that reaches `m`.
pub open spec fn crt_candidate(m: nat, s: nat) -> nat {
    ceil_div(m, two_pow(s)) * two_pow(s)
}

/// The scan returns at most its running winner and at most every candidate
/// of a valid step from `step_log` on.
proof fn lemma_crt_scan_minimal(m: nat, step_log: nat, winner: Option<nat>, s: nat)
    requires
        (step_log <= s && crt_step_valid(m, s)) || winner is Some,
    ensures
        crt_scan(m, step_log, winner) is Some,
        step_log <= s && crt_step_valid(m, s) ==> crt_scan(m, step_log, winner).unwrap() <= crt_candidate(m, s),
        winner is Some ==> crt_scan(m, step_log, winner).unwrap() <= winner.unwrap(),
    decreases 64 - step_log,
{
    if step_log >= 64 || two_pow(step_log) > usize::MAX || two_pow(step_log) > m {
        if step_log <= s && crt_step_valid(m, s) {
            lemma_two_pow_monotone(step_log, s);
        }
    } else {
        let step = two_pow(step_log);
        let blocks = ceil_div(m, step);
        let candidate = blocks * step;
        let next = if blocks <= SSA_BNM1_BASECASE_LIMBS && candidate <= usize::MAX && (winner is None
            || candidate < winner.unwrap()) {
            Some(candidate)
        } else {
            winner
        };
        if step_log == s && crt_step_valid(m, s) {
            lemma_crt_scan_minimal(m, step_log + 1, next, s);
        } else {
            lemma_crt_scan_minimal(m, step_log + 1, next, s);
        }
    }
}

/// The scan's result is its winner or the candidate of a valid step.
proof fn lemma_crt_scan_member(m: nat, step_log: nat, winner: Option<nat>) -> (s: nat)
    requires
        crt_scan(m, step_log, winner) is Some,
    ensures
        (winner is Some && crt_scan(m, step_log, winner).unwrap() == winner.unwrap()) || (crt_step_valid(m, s)
            && crt_scan(m, step_log, winner).unwrap() == crt_candidate(m, s)),
    decreases 64 - step_log,
{
    if step_log >= 64 || two_pow(step_log) > usize::MAX || two_pow(step_log) > m {
        0
    } else {
        let step = two_pow(step_log);
        let blocks = ceil_div(m, step);
        let candidate = blocks * step;
        let next = if blocks <= SSA_BNM1_BASECASE_LIMBS && candidate <= usize::MAX && (winner is None
            || candidate < winner.unwrap()) {
            Some(candidate)
        } else {
            winner
        };
        let t = lemma_crt_scan_member(m, step_log + 1, next);
        if next is Some && crt_scan(m, step_log + 1, next).unwrap() == next.unwrap() && next != winner {
            step_log
        } else {
            t
        }
    }
}

/// Every word-sized product width has a CRT half-width: the largest power
/// of two not above the minimum is a step that covers it in two blocks.
pub proof fn lemma_crt_half_width_exists(required_bits: nat)
    requires
        required_bits <= usize::MAX,
    ensures
        spec_crt_half_width(required_bits) is Some,
{
    let m = crt_minimum(required_bits);
    if m > SSA_BNM1_BASECASE_LIMBS {
        let t = floor_log2(m);
        crate::num::lemma_floor_log2_bounds(m);
        let q = two_pow(t);
        lemma_two_pow_pos(t);
        assert(two_pow(t + 1) == 2 * q);
        assert(m <= usize::MAX / 2) by {
            lemma_div_is_ordered((required_bits + 127) as int, (usize::MAX + 127) as int, 128);
        }
        lemma_fundamental_div_mod((m + q - 1) as int, q as int);
        let c = ceil_div(m, q);
        assert(c <= 2 && c * q <= 2 * q) by (nonlinear_arith)
            requires
                c == (m + q - 1) / (q as int),
                m < 2 * q,
                q >= 1,
        ;
        assert(t < 64) by {
            if t >= 64 {
                lemma_two_pow_monotone(64, t);
                crate::num::lemma_two_pow_64();
            }
        }
        assert(crt_step_valid(m, t));
        lemma_crt_scan_minimal(m, 0, None, t);
    }
}

/// The half-width is monotone in the required bits: a width pair that is
/// accepted stays accepted, with no wider half-width, when the product
/// needs fewer bits.
pub proof fn lemma_crt_half_width_monotone(r1: nat, r2: nat)
    requires
        r1 <= r2,
        r2 <= usize::MAX,
    ensures
        spec_crt_half_width(r1) is Some,
        spec_crt_half_width(r2) is Some,
        spec_crt_half_width(r1).unwrap() <= spec_crt_half_width(r2).unwrap(),
{
    lemma_crt_half_width_exists(r2);
    let m1 = crt_minimum(r1);
    let m2 = crt_minimum(r2);
    assert(ceil_div(r1, 128) <= ceil_div(r2, 128)) by {
        lemma_div_is_ordered((r1 + 127) as int, (r2 + 127) as int, 128);
    }
    assert(m1 <= m2);
    if m2 > SSA_BNM1_BASECASE_LIMBS {
        lemma_crt_scan_sound(m2, 0, None);
    }
    if m1 > SSA_BNM1_BASECASE_LIMBS {
        let r = crt_scan(m2, 0, None).unwrap();
        let s = lemma_crt_scan_member(m2, 0, None);
        let p = two_pow(s);
        lemma_two_pow_pos(s);
        assert(ceil_div(m1, p) <= ceil_div(m2, p)) by {
            lemma_div_is_ordered((m1 + p - 1) as int, (m2 + p - 1) as int, p as int);
        }
        assert(crt_candidate(m1, s) <= crt_candidate(m2, s)) by {
            lemma_mul_inequality(ceil_div(m1, p) as int, ceil_div(m2, p) as int, p as int);
        }
        if p <= m1 {
            lemma_crt_scan_minimal(m1, 0, None, s);
        } else {
            // A smaller step fits m1 in at most two blocks, below 2^s <= r.
            let t = floor_log2(m1);
            crate::num::lemma_floor_log2_bounds(m1);
            let q = two_pow(t);
            lemma_two_pow_pos(t);
            assert(t < s) by {
                if t >= s {
                    lemma_two_pow_monotone(s, t);
                }
            }
            lemma_two_pow_monotone(t + 1, s);
            assert(two_pow(t + 1) == 2 * q);
            lemma_fundamental_div_mod((m1 + q - 1) as int, q as int);
            let c = ceil_div(m1, q);
            assert(c <= 2 && c * q <= 2 * q) by (nonlinear_arith)
                requires
                    c == (m1 + q - 1) / (q as int),
                    m1 < 2 * q,
                    q >= 1,
            ;
            lemma_fundamental_div_mod((m2 + p - 1) as int, p as int);
            assert(ceil_div(m2, p) >= 1) by (nonlinear_arith)
                requires
                    ceil_div(m2, p) == (m2 + p - 1) / (p as int),
                    m2 >= 1,
                    p >= 1,
            ;
            lemma_mul_inequality(1, ceil_div(m2, p) as int, p as int);
            assert(t < 64) by {
                if t >= 64 {
                    lemma_two_pow_monotone(64, t);
                    crate::num::lemma_two_pow_64();
                }
            }
            assert(crt_step_valid(m1, t));
            lemma_crt_scan_minimal(m1, 0, None, t);
        }
    }
}

/// The two-point fallback is the exponent-one geometry with whole-bit
/// steps wherever that geometry exists, and it exists for every positive
/// multiple of 64 bits whose one-limb-wider ring is at most a quarter of a
/// word.
pub proof fn lemma_two_point_is_exponent_one(modulus_bits: nat)
    ensures
        spec_for_exponent(1, modulus_bits, true) is Some ==> spec_for_exponent(1, modulus_bits, true) == Some(
            spec_two_point(modulus_bits),
        ),
        modulus_bits > 0 && modulus_bits % 64 == 0 && 4 * (modulus_bits + 64) <= usize::MAX
            ==> spec_for_exponent(1, modulus_bits, true) is Some,
{
    if modulus_bits > 0 && modulus_bits % 64 == 0 && 4 * (modulus_bits + 64) <= usize::MAX {
        assert(two_pow(1) == 2) by {
            assert(two_pow(0) == 1);
        }
        let cb = modulus_bits / 2;
        assert(cb * 2 + 1 == modulus_bits + 1);
        assert(spec_max(2, 64) == 64);
        let c = ceil_div(modulus_bits + 1, 64);
        assert(c == modulus_bits / 64 + 1) by {
            lemma_fundamental_div_mod(modulus_bits as int, 64);
            lemma_fundamental_div_mod_converse((modulus_bits + 1 + 63) as int, 64, (modulus_bits / 64 + 1) as int, 0);
        }
        let q = modulus_bits / 64;
        lemma_fundamental_div_mod(modulus_bits as int, 64);
        assert(c * 64 == modulus_bits + 64) by (nonlinear_arith)
            requires
                c == q + 1,
                modulus_bits == 64 * q,
        ;
        assert(round_up(modulus_bits + 1, 64) == modulus_bits + 64);
        assert(wrap_add(modulus_bits, 64) == modulus_bits + 64);
        assert(((modulus_bits + 64) * 2) / 2 == modulus_bits + 64);
        if modulus_bits + 64 > SSA_BASE_MODULUS_BITS {
            lemma_mod_add_multiples_vanish(modulus_bits as int, 64);
            lemma_nested_ring_bits_settles(modulus_bits + 64);
            let r = spec_nested_ring_bits(modulus_bits + 64, 64).unwrap();
            assert((r * 2) % 2 == 0) by {
                lemma_mod_multiples_basic(r as int, 2);
            }
        }
    }
}

/// Rounds `x` up to a multiple of `unit` when the sum fits a word.
fn round_up_checked(x: usize, unit: usize) -> (r: Option<usize>)
    requires
        unit > 0,
    ensures
        x + unit - 1 > usize::MAX ==> r is None,
        x + unit - 1 <= usize::MAX ==> r == Some(round_up(x as nat, unit as nat) as usize),
        x + unit - 1 <= usize::MAX ==> x <= round_up(x as nat, unit as nat) <= x + unit - 1,
{
    let mask = unit - 1;
    let sum = x.checked_add(mask)?;
    let q = sum / unit;
    proof {
        lemma_fundamental_div_mod(sum as int, unit as int);
        lemma_mul_is_commutative(unit as int, q as int);
        assert(q * unit <= sum);
        assert(q * unit >= x);
    }
    Some(q * unit)
}

/// The least power of two at least `x`, when it fits a word.
fn next_power_of_two(x: usize) -> (r: Option<usize>)
    ensures
        opt_nat(r) == spec_next_pow2(x as nat),
{
    let mut k: u32 = 0;
    let mut p: usize = 1;
    proof {
        lemma_two_pow_64();
        assert(two_pow(0) == 1);
    }
    while p < x
        invariant
            k <= 64,
            p == two_pow(k as nat),
            spec_next_pow2(x as nat) == next_pow2_from(x as nat, k as nat),
            two_pow(64) > usize::MAX,
        decreases 64 - k,
    {
        proof {
            assert(two_pow((k + 1) as nat) == 2 * two_pow(k as nat));
            if k >= 64 {
                lemma_two_pow_monotone(64, k as nat);
            }
        }
        match p.checked_mul(2) {
            Some(next) => {
                p = next;
                k = k + 1;
            },
            None => {
                proof {
                    assert(next_pow2_from(x as nat, (k + 1) as nat) is None) by {
                        assert(two_pow((k + 1) as nat) > usize::MAX);
                    }
                }
                return None;
            },
        }
    }
    Some(p)
}

/// Rounds a nested inner ring up to a width the nested planner can partition.
fn nested_ring_bits(width: usize, alignment: usize) -> (r: Option<usize>)
    ensures
        opt_nat(r) == spec_nested_ring_bits(width as nat, alignment as nat),
{
    let mut current = width;
    loop
        invariant
            spec_nested_ring_bits(current as nat, alignment as nat) == spec_nested_ring_bits(
                width as nat,
                alignment as nat,
            ),
        decreases usize::MAX - current,
    {
        let nested_log = SsaPlan::search_centre(current) + 2;
        let nested_len = match checked_pow2(nested_log) {
            Some(len) => len,
            None => 1,
        };
        let mut unit = if alignment > nested_len {
            alignment
        } else {
            nested_len
        };
        if unit < 64 {
            unit = 64;
        }
        proof {
            let nl = spec_search_centre(current as nat) + 2;
            let sl = if two_pow(nl) <= usize::MAX {
                two_pow(nl)
            } else {
                1
            };
            assert(nested_len == sl);
            assert(unit == spec_max(spec_max(alignment as int, sl as int), 64));
        }
        let rounded = match round_up_checked(current, unit) {
            Some(r) => r,
            None => {
                return None;
            },
        };
        if rounded > current {
            current = rounded;
        } else {
            proof {
                assert(rounded == round_up(current as nat, unit as nat));
                assert(spec_nested_ring_bits(current as nat, alignment as nat) == Some(current as nat));
            }
            return Some(current);
        }
    }
}

impl Geometry {
    /// Derives the geometry for one transform exponent, or `None` when the
    /// exponent cannot produce a usable Fermat transform for this ring.
    ///
    /// `whole_step` asks for an inner ring aligned to a whole transform length
    /// rather than a half, which makes the pre-twist a plain shift at the price
    /// of a wider ring.
    pub fn for_exponent(exponent: u32, modulus_bits: usize, whole_step: bool) -> (g: Option<
        Geometry,
    >)
        ensures
            g == spec_for_exponent(exponent as nat, modulus_bits as nat, whole_step),
    {
        let transform_len = checked_pow2(exponent)?;
        if transform_len < 2 || modulus_bits % transform_len != 0 {
            return None;
        }
        let transform_log = exponent as usize;
        let chunk_bits = modulus_bits / transform_len;
        if chunk_bits == 0 {
            return None;
        }
        let inner_bound = chunk_bits.checked_mul(2)?.checked_add(transform_log)?;
        let step_alignment = if whole_step {
            transform_len
        } else {
            transform_len / 2
        };
        let alignment = if step_alignment > 64 {
            step_alignment
        } else {
            64
        };
        let aligned = round_up_checked(inner_bound, alignment)?;
        let inner_bits = if aligned <= SSA_BASE_MODULUS_BITS {
            aligned
        } else {
            nested_ring_bits(aligned, alignment)?
        };
        let doubled = inner_bits.checked_mul(2)?;
        if inner_bits < transform_len / 2 || doubled % transform_len != 0 {
            return None;
        }
        let twist_step_half = doubled / transform_len;
        Some(
            Geometry {
                transform_len,
                transform_log,
                chunk_bits,
                inner_bits,
                twist_step_half,
                whole_step,
            },
        )
    }

    /// Builds the two-point geometry, the planner's always-available
    /// fallback: the exponent-one geometry of [`Self::for_exponent`] with
    /// whole-bit steps, or the direct two-point layout when exponent one does
    /// not fit a word.
    pub fn two_point(modulus_bits: usize) -> (g: Geometry)
        ensures
            g == spec_two_point(modulus_bits as nat),
            spec_for_exponent(1, modulus_bits as nat, true) matches Some(e) ==> g == e,
    {
        match Self::for_exponent(1, modulus_bits, true) {
            Some(g) => g,
            None => Self::two_point_direct(modulus_bits),
        }
    }

    /// The direct two-point layout.
    fn two_point_direct(modulus_bits: usize) -> (g: Geometry)
        ensures
            g == spec_two_point_direct(modulus_bits as nat),
    {
        let chunk_bits = modulus_bits / 2;
        let inner_bound = modulus_bits.wrapping_add(1);
        let aligned = modulus_bits.wrapping_add(64);
        let inner_bits = if aligned <= SSA_BASE_MODULUS_BITS {
            aligned
        } else {
            match next_power_of_two(inner_bound) {
                Some(p) => p,
                None => aligned,
            }
        };
        Geometry {
            transform_len: 2,
            transform_log: 1,
            chunk_bits,
            inner_bits,
            twist_step_half: inner_bits,
            whole_step: true,
        }
    }
}

/// The termination measure of the cost model: rings the basecase prices end it.
pub open spec fn cost_measure(modulus_bits: nat) -> nat {
    if modulus_bits <= SSA_BASE_MODULUS_BITS {
        0
    } else {
        modulus_bits + 1
    }
}

/// The candidate that beats the current winner, strictly cheaper wins.
pub open spec fn cheaper(winner: Option<(nat, Geometry)>, candidate: Option<(nat, Geometry)>) -> Option<
    (nat, Geometry),
> {
    match candidate {
        Some(c) => if winner is None || c.0 < winner.unwrap().0 {
            Some(c)
        } else {
            winner
        },
        None => winner,
    }
}

/// Cost of one product in a Fermat ring of the given width.
pub open spec fn spec_ring_cost(modulus_bits: nat, depth: nat) -> nat
    decreases cost_measure(modulus_bits), 3nat, 0nat,
{
    if modulus_bits <= SSA_BASE_MODULUS_BITS || depth >= MAX_COST_RECURSION_DEPTH {
        spec_basecase_product_cost(modulus_bits / 64 + 1)
    } else {
        match spec_best_exponent(modulus_bits, depth) {
            Some(best) => best.0,
            None => spec_basecase_product_cost(modulus_bits / 64 + 1),
        }
    }
}

/// The largest exponent the search may probe: the width's trailing zeros,
/// the largest exponent whose transform length divides the width.
pub open spec fn probe_ceiling(modulus_bits: nat) -> nat {
    let zeros = if modulus_bits == 0 {
        usize::BITS as nat
    } else {
        trailing_zero_count(modulus_bits)
    };
    zeros
}

/// The cheapest geometry over every representable exponent, with its cost.
pub open spec fn spec_best_exponent(modulus_bits: nat, depth: nat) -> Option<(nat, Geometry)>
    decreases modulus_bits + 1, 2nat, 0nat,
{
    spec_best_from(modulus_bits, depth, 1, probe_ceiling(modulus_bits), None)
}

/// The exponent scan from `probe` to `high`, each exponent at both alignments.
pub open spec fn spec_best_from(
    modulus_bits: nat,
    depth: nat,
    probe: nat,
    high: nat,
    winner: Option<(nat, Geometry)>,
) -> Option<(nat, Geometry)>
    decreases modulus_bits + 1, 1nat, if probe <= high {
        (high + 1 - probe) as nat
    } else {
        0
    },
{
    if probe > high {
        winner
    } else {
        let half = cheaper(winner, spec_price_geometry(probe, modulus_bits, depth, false));
        let whole = cheaper(half, spec_price_geometry(probe, modulus_bits, depth, true));
        spec_best_from(modulus_bits, depth, probe + 1, high, whole)
    }
}

/// The scan keeps its running winner's cost or better, and ends at or below
/// the cost of every candidate it prices.
proof fn lemma_best_from_minimal(
    modulus_bits: nat,
    depth: nat,
    probe: nat,
    high: nat,
    winner: Option<(nat, Geometry)>,
    e: nat,
    whole_step: bool,
)
    ensures
        winner is Some ==> spec_best_from(modulus_bits, depth, probe, high, winner) is Some && spec_best_from(
            modulus_bits,
            depth,
            probe,
            high,
            winner,
        ).unwrap().0 <= winner.unwrap().0,
        probe <= e <= high && spec_price_geometry(e, modulus_bits, depth, whole_step) is Some
            ==> spec_best_from(modulus_bits, depth, probe, high, winner) is Some && spec_best_from(
            modulus_bits,
            depth,
            probe,
            high,
            winner,
        ).unwrap().0 <= spec_price_geometry(e, modulus_bits, depth, whole_step).unwrap().0,
    decreases if probe <= high {
        (high + 1 - probe) as nat
    } else {
        0
    },
{
    if probe <= high {
        let half = cheaper(winner, spec_price_geometry(probe, modulus_bits, depth, false));
        let whole = cheaper(half, spec_price_geometry(probe, modulus_bits, depth, true));
        lemma_best_from_minimal(modulus_bits, depth, probe + 1, high, whole, e, whole_step);
    }
}

/// The scan's result is its starting winner or a candidate it priced.
proof fn lemma_best_from_member(
    modulus_bits: nat,
    depth: nat,
    probe: nat,
    high: nat,
    winner: Option<(nat, Geometry)>,
) -> (found: (nat, bool))
    requires
        spec_best_from(modulus_bits, depth, probe, high, winner) is Some,
    ensures
        spec_best_from(modulus_bits, depth, probe, high, winner) == winner || (probe <= found.0 <= high && Some(
            spec_best_from(modulus_bits, depth, probe, high, winner).unwrap(),
        ) == spec_price_geometry(found.0, modulus_bits, depth, found.1)),
    decreases if probe <= high {
        (high + 1 - probe) as nat
    } else {
        0
    },
{
    if probe > high {
        (0, false)
    } else {
        let hp = spec_price_geometry(probe, modulus_bits, depth, false);
        let wp = spec_price_geometry(probe, modulus_bits, depth, true);
        let half = cheaper(winner, hp);
        let whole = cheaper(half, wp);
        let r = lemma_best_from_member(modulus_bits, depth, probe + 1, high, whole);
        if spec_best_from(modulus_bits, depth, probe + 1, high, whole) == whole {
            if whole == wp && whole != half {
                (probe, true)
            } else if half == hp && half != winner {
                (probe, false)
            } else {
                r
            }
        } else {
            r
        }
    }
}

/// The planner's choice is the cheapest priced geometry over every exponent
/// from one to the width's trailing zeros and both twist alignments: it is
/// `None` exactly when every candidate is, it is one of the candidates, and
/// its cost is at most every candidate's.
pub proof fn lemma_best_exponent_minimal(modulus_bits: nat, depth: nat, e: nat, whole_step: bool)
    ensures
        1 <= e <= probe_ceiling(modulus_bits) && spec_price_geometry(e, modulus_bits, depth, whole_step) is Some
            ==> spec_best_exponent(modulus_bits, depth) is Some && spec_best_exponent(modulus_bits, depth).unwrap().0
            <= spec_price_geometry(e, modulus_bits, depth, whole_step).unwrap().0,
        spec_best_exponent(modulus_bits, depth) is Some ==> exists|x: nat, w: bool|
            1 <= x <= probe_ceiling(modulus_bits) && #[trigger] spec_price_geometry(x, modulus_bits, depth, w)
                == Some(spec_best_exponent(modulus_bits, depth).unwrap()),
{
    lemma_best_from_minimal(modulus_bits, depth, 1, probe_ceiling(modulus_bits), None, e, whole_step);
    if spec_best_exponent(modulus_bits, depth) is Some {
        let f = lemma_best_from_member(modulus_bits, depth, 1, probe_ceiling(modulus_bits), None);
        assert(spec_price_geometry(f.0, modulus_bits, depth, f.1) == Some(
            spec_best_exponent(modulus_bits, depth).unwrap(),
        ));
    }
}

/// Prices one geometry, including its recursive pointwise products.
pub open spec fn spec_price_geometry(exponent: nat, modulus_bits: nat, depth: nat, whole_step: bool) -> Option<
    (nat, Geometry),
>
    decreases modulus_bits + 1, 0nat, 0nat,
{
    match spec_for_exponent(exponent, modulus_bits, whole_step) {
        None => None,
        Some(g) => {
            let required = g.chunk_bits * 2 + g.transform_log;
            let nests = g.inner_bits > SSA_BASE_MODULUS_BITS;
            if required > usize::MAX || required * 2 > usize::MAX || required * 2 < g.inner_bits {
                None
            } else if nests && g.inner_bits >= modulus_bits {
                None
            } else {
                let inner_cl = g.inner_bits / 64 + 1;
                let sqrt2 = if g.twist_step_half % 2 == 0 {
                    0
                } else {
                    SSA_SQRT2_TWIST_PASSES
                };
                let passes = g.transform_log * 2 + 3 + sqrt2;
                let visit = inner_cl + SSA_COEFFICIENT_VISIT_OVERHEAD;
                let transform_cost = g.transform_len * passes * visit;
                let modelled = spec_ring_cost(g.inner_bits as nat, (depth + 1) % 0x1_0000_0000);
                let unit = if nests {
                    sat(modelled * SSA_NESTED_COST_PENALTY_16THS) / 16
                } else {
                    modelled
                };
                let pointwise = g.transform_len * unit;
                if passes > usize::MAX || visit > usize::MAX || g.transform_len * passes > usize::MAX
                    || transform_cost > usize::MAX || pointwise > usize::MAX || transform_cost
                    + pointwise > usize::MAX {
                    None
                } else {
                    Some(((transform_cost + pointwise) as nat, g))
                }
            }
        },
    }
}

/// Every remembered ring cost is the modelled cost of its width and depth.
spec fn memo_sound(memo: Seq<(usize, u32, usize)>) -> bool {
    forall|i: int|
        0 <= i < memo.len() ==> #[trigger] memo[i].2 as nat == spec_ring_cost(
            memo[i].0 as nat,
            memo[i].1 as nat,
        )
}

/// Cost of one product in a Fermat ring of the given width, remembering each
/// width and depth it prices so that one search prices each ring once.
fn ring_cost(modulus_bits: usize, depth: u32, memo: &mut Vec<(usize, u32, usize)>) -> (cost: usize)
    requires
        memo_sound(old(memo)@),
    ensures
        cost == spec_ring_cost(modulus_bits as nat, depth as nat),
        memo_sound(final(memo)@),
    decreases cost_measure(modulus_bits as nat), 3nat, 0nat,
{
    if modulus_bits <= SSA_BASE_MODULUS_BITS || depth >= MAX_COST_RECURSION_DEPTH {
        return SsaPlan::basecase_product_cost(modulus_bits / 64 + 1);
    }
    let mut i: usize = 0;
    while i < memo.len()
        invariant
            i <= memo.len(),
            memo_sound(memo@),
        decreases memo.len() - i,
    {
        let entry = memo[i];
        if entry.0 == modulus_bits && entry.1 == depth {
            return entry.2;
        }
        i = i + 1;
    }
    let cost = match best_exponent_memo(modulus_bits, depth, memo) {
        Some(best) => best.0,
        None => SsaPlan::basecase_product_cost(modulus_bits / 64 + 1),
    };
    let ghost before = memo@;
    memo.push((modulus_bits, depth, cost));
    proof {
        assert forall|k: int| 0 <= k < memo@.len() implies #[trigger] memo@[k].2 as nat
            == spec_ring_cost(memo@[k].0 as nat, memo@[k].1 as nat) by {
            if k < before.len() {
                assert(memo@[k] == before[k]);
            }
        }
    }
    cost
}

/// The exponent scan behind [`SsaPlan::best_exponent`], sharing one memo.
fn best_exponent_memo(modulus_bits: usize, depth: u32, memo: &mut Vec<(usize, u32, usize)>) -> (best: Option<(usize, Geometry)>)
    requires
        memo_sound(old(memo)@),
    ensures
        memo_sound(final(memo)@),
        opt_priced(best) == spec_best_exponent(modulus_bits as nat, depth as nat),
    decreases modulus_bits + 1, 2nat, 0nat,
{
    let high = trailing_zeros(modulus_bits);
    let mut winner: Option<(usize, Geometry)> = None;
    let mut probe: u32 = 1;
    while probe <= high
        invariant
            high <= 64,
            1 <= probe <= high + 1,
            high == probe_ceiling(modulus_bits as nat),
            memo_sound(memo@),
            spec_best_from(modulus_bits as nat, depth as nat, probe as nat, high as nat, opt_priced(winner))
                == spec_best_exponent(modulus_bits as nat, depth as nat),
        decreases high + 1 - probe,
    {
        let ghost before = opt_priced(winner);
        let half = price_geometry_memo(probe, modulus_bits, depth, false, memo);
        if let Some(candidate) = half {
            let better = match winner {
                None => true,
                Some(current) => candidate.0 < current.0,
            };
            if better {
                winner = Some(candidate);
            }
        }
        let ghost after_half = opt_priced(winner);
        proof {
            assert(after_half == cheaper(before, opt_priced(half)));
        }
        let whole = price_geometry_memo(probe, modulus_bits, depth, true, memo);
        if let Some(candidate) = whole {
            let better = match winner {
                None => true,
                Some(current) => candidate.0 < current.0,
            };
            if better {
                winner = Some(candidate);
            }
        }
        proof {
            assert(opt_priced(winner) == cheaper(after_half, opt_priced(whole)));
        }
        probe = probe + 1;
    }
    winner
}

/// The geometry pricing behind [`SsaPlan::price_geometry`], sharing one memo.
#[verifier::rlimit(60)]
#[verifier::spinoff_prover]
fn price_geometry_memo(exponent: u32, modulus_bits: usize, depth: u32, whole_step: bool, memo: &mut Vec<(usize, u32, usize)>) -> (priced:
    Option<(usize, Geometry)>)
    requires
        memo_sound(old(memo)@),
    ensures
        memo_sound(final(memo)@),
        opt_priced(priced) == spec_price_geometry(
            exponent as nat,
            modulus_bits as nat,
            depth as nat,
            whole_step,
        ),
    decreases modulus_bits + 1, 0nat, 0nat,
{
    let geometry = Geometry::for_exponent(exponent, modulus_bits, whole_step)?;
    let required_inner_bits = geometry.chunk_bits.checked_mul(2)?.checked_add(
        geometry.transform_log,
    )?;
    if required_inner_bits.checked_mul(2)? < geometry.inner_bits {
        return None;
    }
    let nests = geometry.inner_bits > SSA_BASE_MODULUS_BITS;
    if nests && geometry.inner_bits >= modulus_bits {
        return None;
    }
    let inner_cl = geometry.inner_bits / 64 + 1;
    let sqrt2_passes = if geometry.twist_step_half % 2 == 0 {
        0
    } else {
        SSA_SQRT2_TWIST_PASSES
    };
    let passes = geometry.transform_log.checked_mul(2)?.checked_add(3)?.checked_add(
        sqrt2_passes,
    )?;
    let visit_cost = inner_cl.checked_add(SSA_COEFFICIENT_VISIT_OVERHEAD)?;
    let transform_cost = geometry.transform_len.checked_mul(passes)?.checked_mul(visit_cost)?;
    let modelled = ring_cost(geometry.inner_bits, depth.wrapping_add(1), memo);
    let unit_product = if nests {
        saturating_mul(modelled, SSA_NESTED_COST_PENALTY_16THS) / 16
    } else {
        modelled
    };
    let pointwise_cost = geometry.transform_len.checked_mul(unit_product)?;
    Some((transform_cost.checked_add(pointwise_cost)?, geometry))
}

/// Reads an optional priced geometry as its specification value.
pub open spec fn opt_priced(o: Option<(usize, Geometry)>) -> Option<(nat, Geometry)> {
    match o {
        Some(p) => Some((p.0 as nat, p.1)),
        None => None,
    }
}

/// Global planning and sizing routines for SSA.
pub struct SsaPlan;

impl SsaPlan {
    /// Centre of the exponent search, at every level of the recursion.
    ///
    /// The classical Schönhage-Strassen split cuts `N` bits into `sqrt(N)`
    /// pieces of `sqrt(N)` bits, so the transform exponent tracks `log2(N) / 2`.
    pub fn search_centre(modulus_bits: usize) -> (centre: u32)
        ensures
            centre == spec_search_centre(modulus_bits as nat),
            1 <= centre <= 32,
    {
        if modulus_bits == 0 {
            return 1;
        }
        let half = ilog2(modulus_bits) / 2;
        if half < 1 {
            1
        } else {
            half
        }
    }

    /// Returns the cheapest geometry for a ring together with its modelled
    /// cost, scanning every representable transform exponent for the width.
    pub fn best_exponent(modulus_bits: usize, depth: u32) -> (best: Option<(usize, Geometry)>)
        ensures
            opt_priced(best) == spec_best_exponent(modulus_bits as nat, depth as nat),
    {
        let mut memo: Vec<(usize, u32, usize)> = Vec::new();
        best_exponent_memo(modulus_bits, depth, &mut memo)
    }

    /// Prices one geometry, including its recursive pointwise products.
    ///
    /// A geometry whose aligned coefficient ring is more than twice what its
    /// chunks require is dominated by the next shorter transform and is
    /// rejected, as is a nested ring that is not narrower than its parent.
    pub fn price_geometry(exponent: u32, modulus_bits: usize, depth: u32, whole_step: bool) -> (priced:
        Option<(usize, Geometry)>)
        ensures
            opt_priced(priced) == spec_price_geometry(
                exponent as nat,
                modulus_bits as nat,
                depth as nat,
                whole_step,
            ),
    {
        let mut memo: Vec<(usize, u32, usize)> = Vec::new();
        price_geometry_memo(exponent, modulus_bits, depth, whole_step, &mut memo)
    }

    /// Interpolates between `n^1.5` and `n^1.75` lower-tower cost models.
    pub fn basecase_product_cost(coefficient_limbs: usize) -> (cost: usize)
        ensures
            cost == spec_basecase_product_cost(coefficient_limbs as nat),
    {
        let three_halves = saturating_mul(coefficient_limbs, isqrt(coefficient_limbs));
        let seven_fourths = saturating_mul(coefficient_limbs, isqrt(three_halves));
        let interpolation = saturating_mul(
            seven_fourths.saturating_sub(three_halves),
            SSA_BASECASE_COST_WEIGHT_16THS,
        ) / 16;
        three_halves.saturating_add(interpolation)
    }

    /// Smallest CRT half-width, in limbs, that can carry a `required_bits`-wide
    /// product through the `B^n - 1` / `B^n + 1` decomposition.
    ///
    /// Two constraints bound the choice: `2 * n * LIMB_BITS >= required_bits`,
    /// so the product is recovered exactly, and the `B^n - 1` recursion halves
    /// `n` down to `SSA_BNM1_BASECASE_LIMBS` through even widths only. Rounding
    /// `n` up to the least multiple of a power of two whose quotient fits the
    /// basecase satisfies both.
    pub fn crt_half_width(required_bits: usize) -> (half_width: Option<usize>)
        ensures
            opt_nat(half_width) == spec_crt_half_width(required_bits as nat),
            spec_crt_half_width(required_bits as nat) is Some ==> spec_crt_half_width(
                required_bits as nat,
            ).unwrap() <= usize::MAX,
            half_width is Some ==> 128 * half_width.unwrap() >= required_bits,
            half_width is Some ==> halvable(half_width.unwrap() as nat),
            half_width is Some ==> half_width.unwrap() >= 2,
    {
        let minimum_blocks = div_ceil(required_bits, 128);
        let minimum = if minimum_blocks < 2 {
            2
        } else {
            minimum_blocks
        };
        proof {
            lemma_crt_scan_sound(minimum as nat, 0, None);
        }
        if minimum <= SSA_BNM1_BASECASE_LIMBS {
            proof {
                assert(halvable(minimum as nat));
                assert(minimum_blocks * 128 >= required_bits);
            }
            return Some(minimum);
        }
        let mut winner: Option<usize> = None;
        let mut step_log: u32 = 0;
        proof {
            lemma_two_pow_64();
        }
        loop
            invariant
                step_log <= 64,
                minimum == crt_minimum(required_bits as nat),
                minimum > SSA_BNM1_BASECASE_LIMBS,
                crt_scan(minimum as nat, step_log as nat, opt_nat(winner))
                    == crt_scan(minimum as nat, 0, None),
                two_pow(64) > usize::MAX,
            ensures
                crt_scan(minimum as nat, 0, None) == opt_nat(winner),
            decreases 64 - step_log,
        {
            if step_log >= 64 {
                break;
            }
            let step = match checked_pow2(step_log) {
                Some(step) => step,
                None => {
                    break;
                },
            };
            if step > minimum {
                break;
            }
            let ghost prev = opt_nat(winner);
            proof {
                lemma_two_pow_pos(step_log as nat);
            }
            let blocks = div_ceil(minimum, step);
            if blocks <= SSA_BNM1_BASECASE_LIMBS {
                if let Some(candidate) = blocks.checked_mul(step) {
                    let better = match winner {
                        None => true,
                        Some(current) => candidate < current,
                    };
                    if better {
                        winner = Some(candidate);
                    }
                }
            }
            proof {
                let next = if blocks <= SSA_BNM1_BASECASE_LIMBS && blocks * step <= usize::MAX && (
                prev is None || blocks * step < prev.unwrap()) {
                    Some((blocks * step) as nat)
                } else {
                    prev
                };
                assert(opt_nat(winner) == next);
                assert(crt_scan(minimum as nat, step_log as nat, prev) == crt_scan(
                    minimum as nat,
                    (step_log + 1) as nat,
                    next,
                ));
            }
            step_log = step_log + 1;
        }
        proof {
            lemma_crt_scan_sound(minimum as nat, 0, None);
            if winner is Some {
                assert(winner.unwrap() >= minimum);
                assert(minimum_blocks * 128 >= required_bits);
            }
        }
        winner
    }
}

/// A parameter set for the recursive Fermat-ring FFT.
#[derive(Clone, Copy, Debug)]
pub struct FftPlan {
    pub modulus_bits: usize,
    pub transform_len: usize,
    pub transform_log: usize,
    pub chunk_bits: usize,
    pub inner_bits: usize,
    pub inner_cl: usize,
    /// Pre-twist step in half-bit units: `2 * inner_bits / transform_len`.
    pub twist_step_half: usize,
    pub omega_shift: usize,
    pub mat_limbs: usize,
    pub recon_len: usize,
}

/// The inverse twiddle and `1 / transform_len` scaling that follow the
/// inverse transform.
#[derive(Clone, Copy, Debug)]
pub struct InverseTwist {
    /// Fermat ring modulus bit width.
    pub inner_bits: usize,
    /// Base-two logarithm of the transform length.
    pub transform_log: usize,
    /// Forward twist increment per coefficient, in half-bit units.
    pub twist_step_half: usize,
}

/// The geometry the cost model selects for a ring, or the two-point fallback.
pub open spec fn spec_best_for(modulus_bits: nat) -> Geometry {
    match spec_best_exponent(modulus_bits, 0) {
        Some(best) => best.1,
        None => spec_two_point(modulus_bits),
    }
}

/// Expands a geometry into the full scratch-aware plan.
pub open spec fn spec_from_geometry(modulus_bits: nat, g: Geometry) -> FftPlan {
    let cl = modulus_bits / 64 + 1;
    let inner_cl = g.inner_bits / 64 + 1;
    let recon = (cl + inner_cl) * 2;
    FftPlan {
        modulus_bits: modulus_bits as usize,
        transform_len: g.transform_len,
        transform_log: g.transform_log,
        chunk_bits: g.chunk_bits,
        inner_bits: g.inner_bits,
        inner_cl: inner_cl as usize,
        twist_step_half: g.twist_step_half,
        omega_shift: g.twist_step_half,
        mat_limbs: sat(g.transform_len * inner_cl) as usize,
        recon_len: if recon > usize::MAX {
            usize::MAX
        } else if recon >= cl {
            recon as usize
        } else {
            cl as usize
        },
    }
}

/// The plan the cost model selects for a ring.
pub open spec fn spec_fft_plan(modulus_bits: nat) -> FftPlan {
    spec_from_geometry(modulus_bits, spec_best_for(modulus_bits))
}

/// The cheaper alignment for one forced exponent, ties going to the half step.
pub open spec fn spec_forced_geometry(modulus_bits: nat, exponent: nat) -> Option<Geometry> {
    let half = spec_price_geometry(exponent, modulus_bits, 0, false);
    let whole = spec_price_geometry(exponent, modulus_bits, 0, true);
    if half is Some && whole is Some {
        if whole.unwrap().0 < half.unwrap().0 {
            Some(whole.unwrap().1)
        } else {
            Some(half.unwrap().1)
        }
    } else if half is Some {
        Some(half.unwrap().1)
    } else if whole is Some {
        Some(whole.unwrap().1)
    } else {
        None
    }
}

/// The largest power of two not above `min(max(requested, 1), transform_len)`,
/// and one when that bound is at most one.
pub open spec fn spec_parallelism_budget(transform_len: nat, requested: nat) -> nat {
    let request = if requested == 0 {
        1
    } else {
        requested
    };
    let bounded = if request > transform_len {
        transform_len
    } else {
        request
    };
    if bounded <= 1 {
        1
    } else {
        two_pow(floor_log2(bounded))
    }
}

/// The number of coefficient-aligned leaves a halving splitter produces.
pub open spec fn spec_leaf_count(transform_len: nat, leaf_len: nat) -> nat
    decreases transform_len,
{
    let leaf_width = if leaf_len == 0 {
        1
    } else {
        leaf_len
    };
    if transform_len <= leaf_width {
        1
    } else {
        let left = transform_len / 2;
        sat(
            (spec_leaf_count(left, leaf_width) + spec_leaf_count(
                (transform_len - left) as nat,
                leaf_width,
            )) as int,
        )
    }
}

/// The per-operand twiddle-slot budget for an executor.
pub open spec fn spec_parallel_slots(plan: FftPlan, parallelism: nat) -> nat {
    let budget = spec_parallelism_budget(plan.transform_len as nat, parallelism);
    if plan.transform_len <= 1 {
        budget
    } else if budget < 2 {
        2
    } else {
        budget
    }
}

proof fn lemma_mul_increases_bound(a: nat, b: nat)
    requires
        b >= 1,
    ensures
        a * b * 2 >= a * b,
{
}

/// Adds two scratch spans, keeping the overflow sentinel.
pub open spec fn add_or_max_spec(a: nat, b: nat) -> nat {
    if a == usize::MAX || a + b > usize::MAX {
        usize::MAX as nat
    } else {
        a + b
    }
}

/// Scratch for a product transform with `slots` twiddle slots per operand.
pub open spec fn spec_transform_mul_scratch(plan: FftPlan, slots: nat) -> nat
    decreases plan.modulus_bits, 3nat,
{
    let slot_count = if slots == 0 {
        1
    } else {
        slots
    };
    if plan.mat_limbs * 2 > usize::MAX || plan.inner_cl * slot_count * 2 > usize::MAX {
        usize::MAX as nat
    } else {
        add_or_max_spec(
            add_or_max_spec(
                add_or_max_spec((plan.mat_limbs * 2) as nat, (plan.inner_cl * slot_count * 2) as nat),
                spec_pointwise_scratch(plan, slot_count),
            ),
            plan.recon_len as nat,
        )
    }
}

/// Saturating addition is monotone in both arguments and never exceeds the
/// word's maximum when its first argument is a word.
proof fn lemma_add_or_max_monotone(a: nat, b: nat, c: nat, d: nat)
    requires
        a <= c,
        b <= d,
        c <= usize::MAX,
    ensures
        add_or_max_spec(a, b) <= add_or_max_spec(c, d),
        add_or_max_spec(c, d) <= usize::MAX,
{
}

/// A square transform needs no more scratch than a product transform of the
/// same plan and slot count: it stages one matrix and one twiddle arena
/// where a product stages two, with the same pointwise and reconstruction
/// arenas (an overflowing size saturates both to `usize::MAX`).
pub proof fn lemma_square_scratch_below_product(plan: FftPlan, slots: nat)
    ensures
        spec_transform_sqr_scratch(plan, slots) <= spec_transform_mul_scratch(plan, slots),
{
    let slot_count = if slots == 0 {
        1
    } else {
        slots
    };
    let pw = spec_pointwise_scratch(plan, slot_count);
    let r = plan.recon_len as nat;
    if plan.mat_limbs * 2 > usize::MAX || plan.inner_cl * slot_count * 2 > usize::MAX {
        if plan.inner_cl * slot_count <= usize::MAX {
            let t = (plan.inner_cl * slot_count) as nat;
            lemma_add_or_max_monotone(plan.mat_limbs as nat, t, plan.mat_limbs as nat, t);
            let x = add_or_max_spec(plan.mat_limbs as nat, t);
            lemma_add_or_max_monotone(x, pw, x, pw);
            let y = add_or_max_spec(x, pw);
            lemma_add_or_max_monotone(y, r, y, r);
        }
    } else {
        let t = (plan.inner_cl * slot_count) as nat;
        lemma_add_or_max_monotone(plan.mat_limbs as nat, t, (plan.mat_limbs * 2) as nat, t * 2);
        let x = add_or_max_spec(plan.mat_limbs as nat, t);
        let x2 = add_or_max_spec((plan.mat_limbs * 2) as nat, t * 2);
        lemma_add_or_max_monotone(x, pw, x2, pw);
        let y = add_or_max_spec(x, pw);
        let y2 = add_or_max_spec(x2, pw);
        lemma_add_or_max_monotone(y, r, y2, r);
        assert(plan.inner_cl * slot_count * 2 == t * 2);
    }
}

/// Scratch for a square transform with `slots` twiddle slots.
pub open spec fn spec_transform_sqr_scratch(plan: FftPlan, slots: nat) -> nat {
    let slot_count = if slots == 0 {
        1
    } else {
        slots
    };
    if plan.inner_cl * slot_count > usize::MAX {
        usize::MAX as nat
    } else {
        add_or_max_spec(
            add_or_max_spec(
                add_or_max_spec(plan.mat_limbs as nat, (plan.inner_cl * slot_count) as nat),
                spec_pointwise_scratch(plan, slot_count),
            ),
            plan.recon_len as nat,
        )
    }
}

/// Scratch for all pointwise leaves at the given scheduling width.
pub open spec fn spec_pointwise_scratch(plan: FftPlan, parallelism: nat) -> nat
    decreases plan.modulus_bits, 2nat,
{
    let workers = spec_parallelism_budget(plan.transform_len as nat, parallelism);
    let leaf_len = spec_max(ceil_div(plan.transform_len as nat, workers) as int, 1) as nat;
    sat((spec_leaf_scratch(plan) * spec_leaf_count(plan.transform_len as nat, leaf_len)) as int)
}

/// Scratch for one pointwise coefficient leaf.
pub open spec fn spec_leaf_scratch(plan: FftPlan) -> nat
    decreases plan.modulus_bits, 1nat,
{
    sat((plan.inner_cl + spec_nested_scratch(plan)) as int)
}

/// Scratch for the nested coefficient product of the pointwise stage.
///
/// A nested ring that is not narrower than its parent cannot be planned
/// recursively; it reports the overflow sentinel.
pub open spec fn spec_nested_scratch(plan: FftPlan) -> nat
    decreases plan.modulus_bits, 0nat,
{
    if plan.inner_bits <= SSA_BASE_MODULUS_BITS {
        crate::ssa::pointwise::spec_fermat_basecase_scratch_len(plan.inner_bits as nat)
    } else if plan.inner_bits < plan.modulus_bits {
        spec_transform_mul_scratch(spec_fft_plan(plan.inner_bits as nat), 2)
    } else {
        usize::MAX as nat
    }
}

/// Scratch for an unforced product at this ring width.
pub open spec fn spec_required_mul_scratch(plan: FftPlan) -> nat {
    if plan.modulus_bits <= SSA_BASE_MODULUS_BITS {
        crate::ssa::pointwise::spec_fermat_basecase_scratch_len(plan.modulus_bits as nat)
    } else {
        spec_transform_mul_scratch(plan, 2)
    }
}

/// Scratch for an unforced square at this ring width.
pub open spec fn spec_required_sqr_scratch(plan: FftPlan) -> nat {
    if plan.modulus_bits <= SSA_BASE_MODULUS_BITS {
        crate::ssa::pointwise::spec_fermat_basecase_scratch_len(plan.modulus_bits as nat)
    } else {
        spec_transform_sqr_scratch(plan, 2)
    }
}

/// Adds two scratch spans, keeping the overflow sentinel.
fn add_or_max(a: usize, b: usize) -> (r: usize)
    ensures
        r == add_or_max_spec(a as nat, b as nat),
{
    if a == usize::MAX {
        return usize::MAX;
    }
    match a.checked_add(b) {
        Some(x) => x,
        None => usize::MAX,
    }
}

impl FftPlan {
    /// The inverse twiddle and scaling correction this geometry implies.
    pub fn inverse_twist(&self) -> (twist: InverseTwist)
        ensures
            twist.inner_bits == self.inner_bits,
            twist.transform_log == self.transform_log,
            twist.twist_step_half == self.twist_step_half,
    {
        InverseTwist {
            inner_bits: self.inner_bits,
            transform_log: self.transform_log,
            twist_step_half: self.twist_step_half,
        }
    }

    /// Builds the plan the cost model selects for this ring.
    pub fn new(modulus_bits: usize) -> (plan: Self)
        ensures
            plan == spec_fft_plan(modulus_bits as nat),
    {
        let geometry = match SsaPlan::best_exponent(modulus_bits, 0) {
            Some(best) => best.1,
            None => Geometry::two_point(modulus_bits),
        };
        Self::from_geometry(modulus_bits, &geometry)
    }

    /// Builds the plan for one caller-forced transform exponent, or `None`
    /// when the exponent cannot produce a usable transform for this ring.
    pub fn try_forced(modulus_bits: usize, transform_exponent: u32) -> (plan: Option<Self>)
        ensures
            plan == match spec_forced_geometry(modulus_bits as nat, transform_exponent as nat) {
                Some(g) => Some(spec_from_geometry(modulus_bits as nat, g)),
                None => None,
            },
    {
        let half = SsaPlan::price_geometry(transform_exponent, modulus_bits, 0, false);
        let whole = SsaPlan::price_geometry(transform_exponent, modulus_bits, 0, true);
        let geometry = match (half, whole) {
            (Some(h), Some(w)) => if w.0 < h.0 {
                w.1
            } else {
                h.1
            },
            (Some(h), None) => h.1,
            (None, Some(w)) => w.1,
            (None, None) => {
                return None;
            },
        };
        Some(Self::from_geometry(modulus_bits, &geometry))
    }

    /// Expands a validated geometry into the full scratch-aware plan.
    fn from_geometry(modulus_bits: usize, geometry: &Geometry) -> (plan: Self)
        ensures
            plan == spec_from_geometry(modulus_bits as nat, *geometry),
    {
        let cl = modulus_bits / 64 + 1;
        let inner_cl = geometry.inner_bits / 64 + 1;
        let mat_limbs = saturating_mul(geometry.transform_len, inner_cl);
        let recon_len = match cl.checked_add(inner_cl) {
            Some(sum) => match sum.checked_mul(2) {
                Some(doubled) => if doubled >= cl {
                    doubled
                } else {
                    cl
                },
                None => usize::MAX,
            },
            None => usize::MAX,
        };
        FftPlan {
            modulus_bits,
            transform_len: geometry.transform_len,
            transform_log: geometry.transform_log,
            chunk_bits: geometry.chunk_bits,
            inner_bits: geometry.inner_bits,
            inner_cl,
            twist_step_half: geometry.twist_step_half,
            omega_shift: geometry.twist_step_half,
            mat_limbs,
            recon_len,
        }
    }

    /// Rounds an executor hint to a power-of-two pointwise split budget.
    pub fn pointwise_parallelism_budget(transform_len: usize, requested: usize) -> (budget: usize)
        ensures
            budget == spec_parallelism_budget(transform_len as nat, requested as nat),
            budget >= 1,
    {
        let request = if requested == 0 {
            1
        } else {
            requested
        };
        let bounded = if request > transform_len {
            transform_len
        } else {
            request
        };
        if bounded <= 1 {
            return 1;
        }
        let mut budget: usize = 1;
        let ghost mut k: nat = 0;
        proof {
            assert(two_pow(0) == 1);
        }
        while budget <= bounded / 2
            invariant
                bounded >= 2,
                budget == two_pow(k),
                budget <= bounded,
                budget >= 1,
            decreases bounded - budget,
        {
            proof {
                assert(two_pow(k + 1) == 2 * two_pow(k));
            }
            budget = budget * 2;
            proof {
                k = k + 1;
            }
        }
        proof {
            crate::num::lemma_floor_log2_unique(bounded as nat, k);
        }
        budget
    }

    /// Counts the coefficient-aligned leaves produced by a pointwise splitter.
    pub fn pointwise_leaf_count(transform_len: usize, leaf_len: usize) -> (count: usize)
        ensures
            count == spec_leaf_count(transform_len as nat, leaf_len as nat),
        decreases transform_len,
    {
        let leaf_width = if leaf_len == 0 {
            1
        } else {
            leaf_len
        };
        if transform_len <= leaf_width {
            1
        } else {
            let left = transform_len / 2;
            let a = Self::pointwise_leaf_count(left, leaf_width);
            let b = Self::pointwise_leaf_count(transform_len - left, leaf_width);
            proof {
                assert(spec_leaf_count(left as nat, leaf_width as nat) == spec_leaf_count(
                    left as nat,
                    leaf_len as nat,
                )) by {
                    reveal_with_fuel(spec_leaf_count, 1);
                }
            }
            a.saturating_add(b)
        }
    }

    /// Scratch for the path an unforced product at this ring width takes.
    pub fn required_mul_scratch(&self) -> (len: usize)
        ensures
            len == spec_required_mul_scratch(*self),
    {
        if self.modulus_bits <= SSA_BASE_MODULUS_BITS {
            SsaPointwise::fermat_basecase_scratch_len(self.modulus_bits)
        } else {
            self.transform_mul_scratch()
        }
    }

    /// Scratch for the transform path specifically, at the structural two slots.
    pub fn transform_mul_scratch(&self) -> (len: usize)
        ensures
            len == spec_transform_mul_scratch(*self, 2),
    {
        self.transform_mul_scratch_for_slots(2)
    }

    /// Scratch for a product transform with `slots` twiddle slots per operand.
    ///
    /// Two slots are the structural minimum; `usize::MAX` reports an
    /// unrepresentable layout.
    pub fn transform_mul_scratch_for_slots(&self, slots: usize) -> (len: usize)
        ensures
            len == spec_transform_mul_scratch(*self, slots as nat),
        decreases self.modulus_bits, 3nat,
    {
        let slot_count = if slots == 0 {
            1
        } else {
            slots
        };
        let matrix = match self.mat_limbs.checked_mul(2) {
            Some(m) => m,
            None => {
                return usize::MAX;
            },
        };
        let twiddle = match self.inner_cl.checked_mul(slot_count) {
            Some(t) => match t.checked_mul(2) {
                Some(t2) => t2,
                None => {
                    return usize::MAX;
                },
            },
            None => {
                proof {
                    lemma_mul_increases_bound(self.inner_cl as nat, slot_count as nat);
                }
                return usize::MAX;
            },
        };
        let pointwise = self.pointwise_scratch_for_parallelism(slot_count);
        add_or_max(add_or_max(add_or_max(matrix, twiddle), pointwise), self.recon_len)
    }

    /// Scratch for one pointwise coefficient leaf.
    pub fn pointwise_leaf_scratch(&self) -> (len: usize)
        ensures
            len == spec_leaf_scratch(*self),
        decreases self.modulus_bits, 1nat,
    {
        self.inner_cl.saturating_add(self.nested_transform_scratch())
    }

    /// Scratch for all pointwise leaves at this transform's scheduling width.
    pub fn pointwise_scratch_for_parallelism(&self, parallelism: usize) -> (len: usize)
        ensures
            len == spec_pointwise_scratch(*self, parallelism as nat),
        decreases self.modulus_bits, 2nat,
    {
        let workers = Self::pointwise_parallelism_budget(self.transform_len, parallelism);
        let ceil = div_ceil(self.transform_len, workers);
        let leaf_len = if ceil < 1 {
            1
        } else {
            ceil
        };
        let leaves = Self::pointwise_leaf_count(self.transform_len, leaf_len);
        saturating_mul(self.pointwise_leaf_scratch(), leaves)
    }

    /// Scratch for the coefficient square stage with the given slot budget.
    pub fn square_scratch_for_slots(&self, slots: usize) -> (len: usize)
        ensures
            len == spec_pointwise_scratch(*self, slots as nat),
    {
        self.pointwise_scratch_for_parallelism(slots)
    }

    /// Scratch for the path an unforced square at this ring width takes.
    pub fn required_sqr_scratch(&self) -> (len: usize)
        ensures
            len == spec_required_sqr_scratch(*self),
    {
        if self.modulus_bits <= SSA_BASE_MODULUS_BITS {
            SsaPointwise::fermat_basecase_scratch_len(self.modulus_bits)
        } else {
            self.transform_sqr_scratch()
        }
    }

    /// Scratch for the squaring transform path specifically.
    pub fn transform_sqr_scratch(&self) -> (len: usize)
        ensures
            len == spec_transform_sqr_scratch(*self, 2),
    {
        self.transform_sqr_scratch_for_slots(2)
    }

    /// Scratch for a square transform with `slots` twiddle slots.
    pub fn transform_sqr_scratch_for_slots(&self, slots: usize) -> (len: usize)
        ensures
            len == spec_transform_sqr_scratch(*self, slots as nat),
    {
        let slot_count = if slots == 0 {
            1
        } else {
            slots
        };
        let twiddle = match self.inner_cl.checked_mul(slot_count) {
            Some(t) => t,
            None => {
                return usize::MAX;
            },
        };
        let square = self.square_scratch_for_slots(slot_count);
        add_or_max(add_or_max(add_or_max(self.mat_limbs, twiddle), square), self.recon_len)
    }

    /// Computes the nested coefficient scratch needed by the pointwise stage.
    ///
    /// Nested coefficient products run sequentially, so their scratch is the
    /// one-worker baseline with the two structural twiddle slots.
    fn nested_transform_scratch(&self) -> (len: usize)
        ensures
            len == spec_nested_scratch(*self),
        decreases self.modulus_bits, 0nat,
    {
        if self.inner_bits <= SSA_BASE_MODULUS_BITS {
            SsaPointwise::fermat_basecase_scratch_len(self.inner_bits)
        } else if self.inner_bits < self.modulus_bits {
            let nested_plan = Self::new(self.inner_bits);
            nested_plan.transform_mul_scratch_for_slots(2)
        } else {
            usize::MAX
        }
    }

    /// Returns the per-operand twiddle-slot budget for an executor: the
    /// scheduling hint bounded by the transform width, rounded down to a power
    /// of two, and never below the two slots one fork needs.
    pub fn parallel_slots(&self, parallelism: usize) -> (slots: usize)
        ensures
            slots == spec_parallel_slots(*self, parallelism as nat),
    {
        let budget = Self::pointwise_parallelism_budget(self.transform_len, parallelism);
        if self.transform_len <= 1 {
            return budget;
        }
        if budget < 2 {
            2
        } else {
            budget
        }
    }
}

/// The identities every selected or forced plan satisfies: the transform
/// length is `2^transform_log` and at least two, the chunks tile the ring,
/// the inner ring is a whole number of limbs holding the coefficient bound
/// `2 * chunk_bits + transform_log`, and `2` has a `transform_len`-th root
/// of unity there, `2^(twist_step_half)` in half-bit steps.
pub open spec fn planned_geometry(p: FftPlan, modulus_bits: nat) -> bool {
    &&& p.modulus_bits == modulus_bits
    &&& p.transform_len >= 2
    &&& p.transform_len == two_pow(p.transform_log as nat)
    &&& p.transform_len * p.chunk_bits == modulus_bits
    &&& p.chunk_bits * 2 + p.transform_log <= p.inner_bits
    &&& p.inner_bits % 64 == 0
    &&& (2 * p.inner_bits) % (p.transform_len as int) == 0
    &&& p.twist_step_half * p.transform_len == 2 * p.inner_bits
    &&& p.twist_step_half > 0
    &&& p.omega_shift == p.twist_step_half
}

/// A power of two of at least 64 is a multiple of 64.
proof fn lemma_large_power_of_two(e: nat)
    requires
        two_pow(e) >= 64,
    ensures
        two_pow(e) % 64 == 0,
{
    reveal_with_fuel(two_pow, 7);
    if e < 6 {
        lemma_two_pow_monotone(e, 5);
        assert(two_pow(5) == 32);
    } else {
        crate::ssa::entry::lemma_two_pow_add(6, (e - 6) as nat);
        assert(two_pow(6) == 64);
        lemma_mod_multiples_basic(two_pow((e - 6) as nat) as int, 64);
    }
}

/// Rounding up to a positive unit gives a multiple of the unit, at least `x`.
proof fn lemma_round_up_bounds(x: nat, unit: nat)
    requires
        unit > 0,
    ensures
        round_up(x, unit) % unit == 0,
        round_up(x, unit) >= x,
        round_up(x, unit) < x + unit,
{
    let c = ceil_div(x, unit);
    lemma_mod_multiples_basic(c as int, unit as int);
    lemma_fundamental_div_mod((x + unit - 1) as int, unit as int);
    lemma_mod_bound((x + unit - 1) as int, unit as int);
    lemma_mul_is_commutative(c as int, unit as int);
}

/// A multiple of 64 times anything is a multiple of 64.
proof fn lemma_multiple_of_multiple(a: nat, unit: nat)
    requires
        unit % 64 == 0,
        a % unit == 0,
        unit > 0,
    ensures
        a % 64 == 0,
{
    lemma_fundamental_div_mod(a as int, unit as int);
    lemma_fundamental_div_mod(unit as int, 64);
    let q = a / unit;
    let u = unit / 64;
    assert(a == 64 * (u * q)) by (nonlinear_arith)
        requires
            a == unit * q,
            unit == 64 * u,
    ;
    lemma_mod_multiples_basic((u * q) as int, 64);
    lemma_mul_is_commutative((u * q) as int, 64);
}

/// The nested ring rounding keeps a multiple of 64 and never shrinks.
proof fn lemma_nested_ring_bits_bounds(width: nat, alignment: nat)
    requires
        width % 64 == 0,
        alignment % 64 == 0,
    ensures
        spec_nested_ring_bits(width, alignment) matches Some(r) ==> r % 64 == 0 && r >= width,
    decreases usize::MAX - width,
{
    let nested_log = spec_search_centre(width) + 2;
    let nested_len = if two_pow(nested_log) <= usize::MAX {
        two_pow(nested_log)
    } else {
        1
    };
    let unit = spec_max(spec_max(alignment as int, nested_len as int), 64) as nat;
    if width + unit - 1 <= usize::MAX {
        let rounded = round_up(width, unit);
        lemma_round_up_bounds(width, unit);
        if rounded > width && rounded <= usize::MAX {
            if unit == nested_len {
                lemma_large_power_of_two(nested_log);
            }
            lemma_multiple_of_multiple(rounded, unit);
            lemma_nested_ring_bits_bounds(rounded, alignment);
        }
    }
}

/// A power of two the upward scan finds is at least its target and a word.
proof fn lemma_next_pow2_from_bounds(x: nat, k: nat)
    ensures
        next_pow2_from(x, k) matches Some(p) ==> p >= x && p <= usize::MAX && (p < 64 || p % 64 == 0),
    decreases 64 - k,
{
    if two_pow(k) <= usize::MAX && two_pow(k) < x && k < 64 {
        lemma_next_pow2_from_bounds(x, k + 1);
    }
    if two_pow(k) >= 64 {
        lemma_large_power_of_two(k);
    }
}

/// Every geometry [`Geometry::for_exponent`] accepts on a word-sized ring
/// meets [`planned_geometry`]'s identities.
pub proof fn lemma_for_exponent_geometry(exponent: nat, modulus_bits: nat, whole_step: bool)
    requires
        modulus_bits <= usize::MAX,
        spec_for_exponent(exponent, modulus_bits, whole_step) is Some,
    ensures
        planned_geometry(
            spec_from_geometry(modulus_bits, spec_for_exponent(exponent, modulus_bits, whole_step).unwrap()),
            modulus_bits,
        ),
        spec_for_exponent(exponent, modulus_bits, whole_step).unwrap().transform_log == exponent,
        spec_for_exponent(exponent, modulus_bits, whole_step).unwrap().whole_step == whole_step,
{
    let g = spec_for_exponent(exponent, modulus_bits, whole_step).unwrap();
    let k = two_pow(exponent);
    let cb = modulus_bits / k;
    let inner_bound = cb * 2 + exponent;
    let step_alignment = if whole_step {
        k
    } else {
        k / 2
    };
    let alignment = spec_max(step_alignment as int, 64) as nat;
    let aligned = round_up(inner_bound, alignment);
    lemma_two_pow_pos(exponent);
    assert(exponent >= 1) by {
        if exponent == 0 {
            assert(two_pow(0) == 1);
        }
    }
    assert(k == 2 * two_pow((exponent - 1) as nat));
    lemma_fundamental_div_mod(modulus_bits as int, k as int);
    assert(k * cb == modulus_bits);
    if step_alignment >= 64 {
        if whole_step {
            lemma_large_power_of_two(exponent);
        } else {
            assert(k / 2 == two_pow((exponent - 1) as nat));
            lemma_large_power_of_two((exponent - 1) as nat);
        }
    }
    assert(alignment % 64 == 0);
    lemma_round_up_bounds(inner_bound, alignment);
    lemma_multiple_of_multiple(aligned, alignment);
    if aligned > SSA_BASE_MODULUS_BITS {
        lemma_nested_ring_bits_bounds(aligned, alignment);
    }
    let inner = g.inner_bits as nat;
    assert(inner % 64 == 0 && inner >= inner_bound);
    lemma_fundamental_div_mod((inner * 2) as int, k as int);
    assert(inner * 2 >= k);
    assert((inner * 2) / k >= 1) by {
        lemma_div_is_ordered(k as int, (inner * 2) as int, k as int);
        lemma_div_by_self(k as int);
    }
    lemma_mul_is_commutative(g.twist_step_half as int, k as int);
}

/// The direct two-point layout meets [`planned_geometry`]'s identities on a
/// positive multiple of 64 bits with a limb of headroom in a word.
#[verifier::rlimit(50)]
#[verifier::spinoff_prover]
proof fn lemma_two_point_direct_geometry(modulus_bits: nat)
    requires
        modulus_bits > 0,
        modulus_bits % 64 == 0,
        modulus_bits + 64 <= usize::MAX,
    ensures
        planned_geometry(spec_from_geometry(modulus_bits, spec_two_point_direct(modulus_bits)), modulus_bits),
{
    reveal_with_fuel(two_pow, 2);
    lemma_next_pow2_from_bounds(wrap_add(modulus_bits, 1), 0);
    lemma_mod_add_multiples_vanish(modulus_bits as int, 64);
    lemma_fundamental_div_mod(modulus_bits as int, 2);
    let g = spec_two_point_direct(modulus_bits);
    assert(g.inner_bits % 64 == 0);
    assert(g.inner_bits >= modulus_bits + 1);
    assert(2 * (modulus_bits / 2) == modulus_bits);
}

/// The plan [`FftPlan::new`] selects for a positive multiple of 64 bits with
/// a limb of headroom in a word is a valid geometry: its transform length is
/// a power of two, its chunks tile the ring, its inner ring holds the
/// coefficient bound, and its twist step is `2 * inner_bits / transform_len`.
pub proof fn lemma_fft_plan_geometry(modulus_bits: nat)
    requires
        modulus_bits > 0,
        modulus_bits % 64 == 0,
        modulus_bits + 64 <= usize::MAX,
    ensures
        planned_geometry(spec_fft_plan(modulus_bits), modulus_bits),
{
    match spec_best_exponent(modulus_bits, 0) {
        Some(best) => {
            lemma_best_exponent_minimal(modulus_bits, 0, 1, false);
            let (x, w) = choose|x: nat, w: bool|
                1 <= x <= probe_ceiling(modulus_bits) && #[trigger] spec_price_geometry(x, modulus_bits, 0, w)
                    == Some(best);
            assert(spec_for_exponent(x, modulus_bits, w) == Some(best.1));
            lemma_for_exponent_geometry(x, modulus_bits, w);
        },
        None => {
            if spec_for_exponent(1, modulus_bits, true) is Some {
                lemma_for_exponent_geometry(1, modulus_bits, true);
            } else {
                lemma_two_point_direct_geometry(modulus_bits);
            }
        },
    }
}

/// The plan [`FftPlan::try_forced`] builds for an exponent it accepts is a
/// valid geometry at that exponent.
pub proof fn lemma_forced_plan_geometry(modulus_bits: nat, exponent: nat)
    requires
        modulus_bits <= usize::MAX,
        spec_forced_geometry(modulus_bits, exponent) is Some,
    ensures
        planned_geometry(
            spec_from_geometry(modulus_bits, spec_forced_geometry(modulus_bits, exponent).unwrap()),
            modulus_bits,
        ),
        spec_forced_geometry(modulus_bits, exponent).unwrap().transform_log == exponent,
{
    let half = spec_price_geometry(exponent, modulus_bits, 0, false);
    let whole = spec_price_geometry(exponent, modulus_bits, 0, true);
    if half is Some {
        lemma_for_exponent_geometry(exponent, modulus_bits, false);
    }
    if whole is Some {
        lemma_for_exponent_geometry(exponent, modulus_bits, true);
    }
}

/// A priced candidate carries its own exponent and alignment.
proof fn lemma_priced_identity(exponent: nat, modulus_bits: nat, depth: nat, whole_step: bool)
    requires
        modulus_bits <= usize::MAX,
        spec_price_geometry(exponent, modulus_bits, depth, whole_step) is Some,
    ensures
        spec_price_geometry(exponent, modulus_bits, depth, whole_step).unwrap().1 == spec_for_exponent(
            exponent,
            modulus_bits,
            whole_step,
        ).unwrap(),
        spec_price_geometry(exponent, modulus_bits, depth, whole_step).unwrap().1.transform_log == exponent,
        spec_price_geometry(exponent, modulus_bits, depth, whole_step).unwrap().1.whole_step == whole_step,
{
    lemma_for_exponent_geometry(exponent, modulus_bits, whole_step);
}

/// Ties go to the half step: when the scan ends on the whole-step candidate
/// of exponent `x`, that candidate is strictly cheaper than the half-step one.
proof fn lemma_best_from_whole_strict(
    modulus_bits: nat,
    depth: nat,
    probe: nat,
    high: nat,
    winner: Option<(nat, Geometry)>,
    x: nat,
)
    requires
        modulus_bits <= usize::MAX,
        winner is Some ==> winner.unwrap().1.transform_log < probe,
        (winner == spec_price_geometry(x, modulus_bits, depth, true) && winner is Some && spec_price_geometry(
            x,
            modulus_bits,
            depth,
            false,
        ) is Some) ==> spec_price_geometry(x, modulus_bits, depth, true).unwrap().0 < spec_price_geometry(
            x,
            modulus_bits,
            depth,
            false,
        ).unwrap().0,
    ensures
        (spec_best_from(modulus_bits, depth, probe, high, winner) == spec_price_geometry(
            x,
            modulus_bits,
            depth,
            true,
        ) && spec_price_geometry(x, modulus_bits, depth, true) is Some && spec_price_geometry(
            x,
            modulus_bits,
            depth,
            false,
        ) is Some) ==> spec_price_geometry(x, modulus_bits, depth, true).unwrap().0 < spec_price_geometry(
            x,
            modulus_bits,
            depth,
            false,
        ).unwrap().0,
    decreases if probe <= high {
        (high + 1 - probe) as nat
    } else {
        0
    },
{
    if probe <= high {
        let hp = spec_price_geometry(probe, modulus_bits, depth, false);
        let wp = spec_price_geometry(probe, modulus_bits, depth, true);
        let xw = spec_price_geometry(x, modulus_bits, depth, true);
        let xh = spec_price_geometry(x, modulus_bits, depth, false);
        let half = cheaper(winner, hp);
        let whole = cheaper(half, wp);
        if hp is Some {
            lemma_priced_identity(probe, modulus_bits, depth, false);
        }
        if wp is Some {
            lemma_priced_identity(probe, modulus_bits, depth, true);
        }
        if xw is Some {
            lemma_priced_identity(x, modulus_bits, depth, true);
        }
        lemma_best_from_whole_strict(modulus_bits, depth, probe + 1, high, whole, x);
    }
}

/// Forcing the exponent the planner selected reproduces the selected plan:
/// [`FftPlan::try_forced`] at the transform exponent of
/// [`FftPlan::new`]'s geometry builds that same plan.
pub proof fn lemma_forced_reproduces_selected(modulus_bits: nat)
    requires
        modulus_bits <= usize::MAX,
        spec_best_exponent(modulus_bits, 0) is Some,
    ensures
        spec_forced_geometry(modulus_bits, spec_best_for(modulus_bits).transform_log as nat) == Some(
            spec_best_for(modulus_bits),
        ),
        spec_from_geometry(modulus_bits, spec_best_for(modulus_bits)) == spec_fft_plan(modulus_bits),
{
    let best = spec_best_exponent(modulus_bits, 0).unwrap();
    let f = lemma_best_from_member(modulus_bits, 0, 1, probe_ceiling(modulus_bits), None);
    let x = f.0;
    let w = f.1;
    lemma_priced_identity(x, modulus_bits, 0, w);
    let half = spec_price_geometry(x, modulus_bits, 0, false);
    let whole = spec_price_geometry(x, modulus_bits, 0, true);
    lemma_best_exponent_minimal(modulus_bits, 0, x, !w);
    if w {
        lemma_best_from_whole_strict(modulus_bits, 0, 1, probe_ceiling(modulus_bits), None, x);
    }
}

/// Every natural number has an integer square root.
proof fn lemma_isqrt_exists(n: nat)
    ensures
        is_isqrt(n, spec_isqrt(n)),
    decreases n,
{
    if n == 0 {
        assert(is_isqrt(0, 0)) by (nonlinear_arith);
    } else {
        lemma_isqrt_exists((n - 1) as nat);
        let r = spec_isqrt((n - 1) as nat);
        if (r + 1) * (r + 1) <= n {
            assert(is_isqrt(n, r + 1)) by (nonlinear_arith)
                requires
                    (r + 1) * (r + 1) <= n,
                    n - 1 < (r + 1) * (r + 1),
            ;
        } else {
            assert(is_isqrt(n, r));
        }
    }
}

/// The integer square root is monotone, and below `2^k` for `n` below `2^(2k)`.
proof fn lemma_isqrt_monotone(n: nat, m: nat)
    requires
        n <= m,
    ensures
        spec_isqrt(n) <= spec_isqrt(m),
{
    lemma_isqrt_exists(n);
    lemma_isqrt_exists(m);
    let r = spec_isqrt(n);
    let t = spec_isqrt(m);
    if r > t {
        assert((t + 1) * (t + 1) <= r * r) by (nonlinear_arith)
            requires
                t + 1 <= r,
        ;
    }
}

/// The basecase cost model never falls as coefficients widen, for widths
/// below `2^16` limbs where none of its products saturates.
pub proof fn lemma_basecase_cost_monotone(n: nat)
    requires
        n + 1 < 0x1_0000,
    ensures
        spec_basecase_product_cost(n) <= spec_basecase_product_cost(n + 1),
{
    let m = n + 1;
    lemma_isqrt_exists(n);
    lemma_isqrt_exists(m);
    lemma_isqrt_monotone(n, m);
    let i1 = spec_isqrt(n);
    let i2 = spec_isqrt(m);
    assert(i2 < 0x100) by (nonlinear_arith)
        requires
            i2 * i2 <= m,
            m < 0x1_0000,
    ;
    let h1 = n * i1;
    let h2 = m * i2;
    assert(h1 <= h2 && h2 <= 0x100_0000) by (nonlinear_arith)
        requires
            n <= m,
            i1 <= i2,
            i2 < 0x100,
            m < 0x1_0000,
            h1 == n * i1,
            h2 == m * i2,
    ;
    lemma_isqrt_exists(h1);
    lemma_isqrt_exists(h2);
    lemma_isqrt_monotone(h1, h2);
    let j1 = spec_isqrt(h1);
    let j2 = spec_isqrt(h2);
    assert(j2 <= 0x1000) by (nonlinear_arith)
        requires
            j2 * j2 <= h2,
            h2 <= 0x100_0000,
    ;
    let f1 = n * j1;
    let f2 = m * j2;
    assert(f1 <= f2 && f2 <= 0x1000_0000) by (nonlinear_arith)
        requires
            n <= m,
            j1 <= j2,
            j2 <= 0x1000,
            m < 0x1_0000,
            f1 == n * j1,
            f2 == m * j2,
    ;
    assert(sat(h1 as int) == h1 && sat(h2 as int) == h2);
    assert(sat(f1 as int) == f1 && sat(f2 as int) == f2);
    let d1 = spec_max(f1 - h1, 0);
    let d2 = spec_max(f2 - h2, 0);
    let w = SSA_BASECASE_COST_WEIGHT_16THS as int;
    assert(sat(d1 * w) == d1 * w && sat(d2 * w) == d2 * w) by (nonlinear_arith)
        requires
            0 <= d1 <= 0x1000_0000,
            0 <= d2 <= 0x1000_0000,
            w == 12,
    ;
    let q1 = (d1 * w) / 16;
    let q2 = (d2 * w) / 16;
    lemma_fundamental_div_mod(d1 * w, 16);
    lemma_fundamental_div_mod(d2 * w, 16);
    assert(16 * q1 <= d1 * w);
    assert(16 * q2 > d2 * w - 16);
    assert(q1 <= d1 && q2 <= d2);
    assert(h1 + q1 <= h2 + q2) by (nonlinear_arith)
        requires
            16 * q1 <= d1 * 12,
            16 * q2 > d2 * 12 - 16,
            d1 == spec_max(f1 - h1, 0),
            d2 == spec_max(f2 - h2, 0),
            h1 <= h2,
            f1 <= f2,
            q1 >= 0,
            q2 >= 0,
    ;
}

/// The basecase cost model is subquadratic: a 256-limb product costs
/// less than `256^2`.
pub proof fn lemma_basecase_cost_subquadratic()
    ensures
        spec_basecase_product_cost(256) < 256 * 256,
{
    lemma_isqrt_exists(256);
    assert(is_isqrt(256, 16)) by (nonlinear_arith);
    crate::num::lemma_isqrt_unique(256, 16, spec_isqrt(256));
    lemma_isqrt_exists(4096);
    assert(is_isqrt(4096, 64)) by (nonlinear_arith);
    crate::num::lemma_isqrt_unique(4096, 64, spec_isqrt(4096));
    assert(spec_isqrt(256) == 16);
    assert(256 * 16 == 4096);
    assert(spec_isqrt(4096) == 64);
    assert(spec_max(16384 - 4096, 0) == 12288);
    assert(sat(12288int * 12) == 147456);
    assert(147456int / 16 == 9216);
}

/// The unit the nested ring rounding uses at a width of `2^f` to `2^(f+1)`
/// bits, `f >= 14`, with the limb alignment: `2^(f/2 + 2)`.
proof fn lemma_nested_unit(width: nat)
    requires
        0x4000 <= width <= usize::MAX,
    ensures
        floor_log2(width) >= 14,
        floor_log2(width) < 64,
        ({
            let nested_log = spec_search_centre(width) + 2;
            let nested_len = if two_pow(nested_log) <= usize::MAX {
                two_pow(nested_log)
            } else {
                1
            };
            spec_max(spec_max(64, nested_len as int), 64) as nat
        }) == two_pow(floor_log2(width) / 2 + 2),
{
    let f = floor_log2(width);
    crate::num::lemma_floor_log2_bounds(width);
    reveal_with_fuel(two_pow, 15);
    assert(two_pow(14) == 0x4000);
    if f < 14 {
        lemma_two_pow_monotone(f + 1, 14);
    }
    if f >= 64 {
        lemma_two_pow_monotone(64, f);
        lemma_two_pow_64();
    }
    assert(spec_search_centre(width) == f / 2);
    lemma_two_pow_monotone(9, f / 2 + 2);
    assert(two_pow(9) == 512);
    lemma_two_pow_monotone(f / 2 + 2, 63);
    lemma_two_pow_64();
}

/// At a multiple of its own unit, the nested rounding stops.
proof fn lemma_nested_stops(width: nat)
    requires
        0x4000 <= width,
        2 * width <= usize::MAX,
        width % two_pow(floor_log2(width) / 2 + 2) == 0,
    ensures
        spec_nested_ring_bits(width, 64) == Some(width),
{
    lemma_nested_unit(width);
    let u = two_pow(floor_log2(width) / 2 + 2);
    lemma_two_pow_pos(floor_log2(width) / 2 + 2);
    crate::num::lemma_floor_log2_bounds(width);
    lemma_two_pow_monotone(floor_log2(width) / 2 + 2, floor_log2(width));
    lemma_fundamental_div_mod(width as int, u as int);
    let q = width / u;
    assert(ceil_div(width, u) == q) by {
        lemma_fundamental_div_mod_converse((width + u - 1) as int, u as int, q as int, (u - 1) as int);
    }
    lemma_mul_is_commutative(q as int, u as int);
}

/// From a limb-aligned width above the basecase and at most a quarter of a
/// word, the nested rounding ends within two steps, below twice the width.
proof fn lemma_nested_ring_bits_settles(w0: nat)
    requires
        0x4000 <= w0,
        w0 % 64 == 0,
        4 * w0 <= usize::MAX,
    ensures
        spec_nested_ring_bits(w0, 64) is Some,
        spec_nested_ring_bits(w0, 64).unwrap() <= 2 * w0,
        spec_nested_ring_bits(w0, 64).unwrap() >= w0,
{
    let k = floor_log2(w0);
    lemma_nested_unit(w0);
    crate::num::lemma_floor_log2_bounds(w0);
    let p = two_pow((k - 5) as nat);
    reveal_with_fuel(two_pow, 8);
    crate::ssa::entry::lemma_two_pow_add((k - 5) as nat, 1);
    crate::ssa::entry::lemma_two_pow_add((k - 5) as nat, 5);
    crate::ssa::entry::lemma_two_pow_add((k - 5) as nat, 6);
    crate::ssa::entry::lemma_two_pow_add((k - 5) as nat, 7);
    assert(two_pow(k) == 32 * p && two_pow(k + 1) == 64 * p && two_pow(k + 2) == 128 * p && two_pow(
        (k - 4) as nat,
    ) == 2 * p) by {
        assert((k - 5) as nat + 5 == k);
        assert((k - 5) as nat + 6 == k + 1);
        assert((k - 5) as nat + 7 == k + 2);
        assert((k - 5) as nat + 1 == (k - 4) as nat);
    }
    let u0 = two_pow(k / 2 + 2);
    lemma_two_pow_monotone(k / 2 + 2, (k - 5) as nat);
    lemma_two_pow_pos(k / 2 + 2);
    let w1 = round_up(w0, u0);
    lemma_round_up_bounds(w0, u0);
    // The first step, when the width is not yet a multiple of its unit.
    assert(spec_nested_ring_bits(w0, 64) == if w1 > w0 {
        spec_nested_ring_bits(w1, 64)
    } else {
        Some(w0)
    });
    crate::num::lemma_floor_log2_bounds(w1);
    if w1 == w0 {
    } else if w1 < two_pow(k + 1) {
        crate::num::lemma_floor_log2_unique(w1, k);
        lemma_nested_stops(w1);
    } else {
        crate::num::lemma_floor_log2_unique(w1, k + 1);
        lemma_nested_unit(w1);
        let u1 = two_pow((k + 1) / 2 + 2);
        lemma_two_pow_monotone((k + 1) / 2 + 2, (k - 4) as nat);
        lemma_two_pow_pos((k + 1) / 2 + 2);
        let w2 = round_up(w1, u1);
        lemma_round_up_bounds(w1, u1);
        assert(spec_nested_ring_bits(w1, 64) == if w2 > w1 {
            spec_nested_ring_bits(w2, 64)
        } else {
            Some(w1)
        });
        if w2 > w1 {
            crate::num::lemma_floor_log2_unique(w2, k + 1);
            lemma_nested_stops(w2);
        }
    }
}

/// The CRT half-width for a word-sized product width `r` covers the product
/// (`128 * n >= r`), is at least two, halves evenly down to the basecase, and
/// is the least such width: it is at most every `blocks * 2^s` with
/// `blocks` fitting the basecase that also covers the product.
pub proof fn lemma_crt_half_width_least(required_bits: nat, blocks: nat, s: nat)
    requires
        required_bits <= usize::MAX,
    ensures
        spec_crt_half_width(required_bits) is Some,
        128 * spec_crt_half_width(required_bits).unwrap() >= required_bits,
        spec_crt_half_width(required_bits).unwrap() >= 2,
        halvable(spec_crt_half_width(required_bits).unwrap()),
        1 <= blocks <= SSA_BNM1_BASECASE_LIMBS && blocks * two_pow(s) >= 2 && 128 * (blocks * two_pow(s))
            >= required_bits && blocks * two_pow(s) <= usize::MAX ==> spec_crt_half_width(required_bits).unwrap()
            <= blocks * two_pow(s),
{
    lemma_crt_half_width_exists(required_bits);
    let m = crt_minimum(required_bits);
    let c = ceil_div(required_bits, 128);
    lemma_fundamental_div_mod((required_bits + 127) as int, 128);
    assert(128 * c >= required_bits);
    if m > SSA_BNM1_BASECASE_LIMBS {
        lemma_crt_scan_sound(m, 0, None);
    } else {
        assert(halvable(m));
    }
    let n2 = blocks * two_pow(s);
    if 1 <= blocks <= SSA_BNM1_BASECASE_LIMBS && n2 >= 2 && 128 * n2 >= required_bits && n2 <= usize::MAX {
        // Any covering width is at least the minimum.
        assert(n2 >= c) by {
            if n2 < c {
                assert(128 * n2 + 127 < 128 * c);
                lemma_div_is_ordered((required_bits + 127) as int, (128 * n2 + 127) as int, 128);
                lemma_fundamental_div_mod_converse((128 * n2 + 127) as int, 128, n2 as int, 127);
            }
        }
        assert(n2 >= m);
        if m > SSA_BNM1_BASECASE_LIMBS {
            let p = two_pow(s);
            lemma_two_pow_pos(s);
            lemma_fundamental_div_mod((m + p - 1) as int, p as int);
            let q = ceil_div(m, p);
            assert(q <= blocks) by {
                if q > blocks {
                    assert((blocks + 1) * p <= q * p) by (nonlinear_arith)
                        requires
                            q >= blocks + 1,
                    ;
                    assert(q * p <= m + p - 1) by (nonlinear_arith)
                        requires
                            q == (m + p - 1) / (p as int),
                            m + p - 1 == p * ((m + p - 1) / (p as int)) + (m + p - 1) % (p as int),
                            (m + p - 1) % (p as int) >= 0,
                    ;
                    assert((blocks + 1) * p == n2 + p) by (nonlinear_arith)
                        requires
                            n2 == blocks * p,
                    ;
                }
            }
            assert(q * p <= n2) by (nonlinear_arith)
                requires
                    q <= blocks,
                    n2 == blocks * p,
            ;
            if p <= m {
                assert(s < 64) by {
                    if s >= 64 {
                        lemma_two_pow_monotone(64, s);
                        lemma_two_pow_64();
                    }
                }
                assert(crt_step_valid(m, s));
                lemma_crt_scan_minimal(m, 0, None, s);
            } else {
                // A step below `m` covers it in two blocks, within `2^s`.
                let t = floor_log2(m);
                crate::num::lemma_floor_log2_bounds(m);
                let qt = two_pow(t);
                lemma_two_pow_pos(t);
                assert(t < s) by {
                    if t >= s {
                        lemma_two_pow_monotone(s, t);
                    }
                }
                lemma_two_pow_monotone(t + 1, s);
                assert(two_pow(t + 1) == 2 * qt);
                lemma_fundamental_div_mod((m + qt - 1) as int, qt as int);
                let ct = ceil_div(m, qt);
                assert(ct <= 2 && ct * qt <= 2 * qt) by (nonlinear_arith)
                    requires
                        ct == (m + qt - 1) / (qt as int),
                        m < 2 * qt,
                        qt >= 1,
                ;
                assert(p <= n2) by (nonlinear_arith)
                    requires
                        n2 == blocks * p,
                        blocks >= 1,
                ;
                assert(t < 64) by {
                    if t >= 64 {
                        lemma_two_pow_monotone(64, t);
                        lemma_two_pow_64();
                    }
                }
                assert(crt_step_valid(m, t));
                lemma_crt_scan_minimal(m, 0, None, t);
            }
        }
    }
}

/// `floor(log2(n))` is monotone.
proof fn lemma_floor_log2_monotone(n: nat, m: nat)
    requires
        1 <= n <= m,
    ensures
        floor_log2(n) <= floor_log2(m),
{
    crate::num::lemma_floor_log2_bounds(n);
    crate::num::lemma_floor_log2_bounds(m);
    if floor_log2(n) > floor_log2(m) {
        lemma_two_pow_monotone(floor_log2(m) + 1, floor_log2(n));
    }
}

/// The pointwise split budget grows with the requested parallelism and is
/// at least one.
proof fn lemma_parallelism_budget_monotone(transform_len: nat, r1: nat, r2: nat)
    requires
        r1 <= r2,
    ensures
        1 <= spec_parallelism_budget(transform_len, r1) <= spec_parallelism_budget(transform_len, r2),
{
    let q1 = if r1 == 0 {
        1
    } else {
        r1
    };
    let q2 = if r2 == 0 {
        1
    } else {
        r2
    };
    let b1 = if q1 > transform_len {
        transform_len
    } else {
        q1
    };
    let b2 = if q2 > transform_len {
        transform_len
    } else {
        q2
    };
    assert(b1 <= b2);
    if b2 > 1 {
        lemma_two_pow_pos(floor_log2(b2));
    }
    if b1 > 1 {
        lemma_two_pow_pos(floor_log2(b1));
        lemma_floor_log2_monotone(b1, b2);
        lemma_two_pow_monotone(floor_log2(b1), floor_log2(b2));
    }
}

/// The twiddle-slot budget grows with the executor's parallelism.
pub proof fn lemma_parallel_slots_monotone(plan: FftPlan, p1: nat, p2: nat)
    requires
        p1 <= p2,
    ensures
        spec_parallel_slots(plan, p1) <= spec_parallel_slots(plan, p2),
        spec_parallel_slots(plan, p1) >= 1,
{
    lemma_parallelism_budget_monotone(plan.transform_len as nat, p1, p2);
}

/// A halving splitter produces at least one leaf.
proof fn lemma_leaf_count_positive(transform_len: nat, leaf_len: nat)
    ensures
        spec_leaf_count(transform_len, leaf_len) >= 1,
    decreases transform_len,
{
    let w = if leaf_len == 0 {
        1
    } else {
        leaf_len
    };
    if transform_len > w {
        let left = transform_len / 2;
        lemma_leaf_count_positive(left, w);
        lemma_leaf_count_positive((transform_len - left) as nat, w);
    }
}

/// Wider leaves mean no more leaves.
proof fn lemma_leaf_count_antitone(transform_len: nat, w1: nat, w2: nat)
    requires
        1 <= w1 <= w2,
    ensures
        spec_leaf_count(transform_len, w2) <= spec_leaf_count(transform_len, w1),
    decreases transform_len,
{
    lemma_leaf_count_positive(transform_len, w1);
    if transform_len > w2 {
        let left = transform_len / 2;
        lemma_leaf_count_antitone(left, w1, w2);
        lemma_leaf_count_antitone((transform_len - left) as nat, w1, w2);
    }
}

/// The pointwise arenas grow with the scheduling width.
proof fn lemma_pointwise_scratch_monotone(plan: FftPlan, p1: nat, p2: nat)
    requires
        p1 <= p2,
    ensures
        spec_pointwise_scratch(plan, p1) <= spec_pointwise_scratch(plan, p2),
        spec_pointwise_scratch(plan, p2) <= usize::MAX,
{
    let k = plan.transform_len as nat;
    lemma_parallelism_budget_monotone(k, p1, p2);
    let w1 = spec_parallelism_budget(k, p1);
    let w2 = spec_parallelism_budget(k, p2);
    let c1 = ceil_div(k, w1);
    let c2 = ceil_div(k, w2);
    assert(c2 <= c1) by {
        lemma_fundamental_div_mod((k + w1 - 1) as int, w1 as int);
        assert(c1 * w1 >= k) by (nonlinear_arith)
            requires
                c1 == (k + w1 - 1) / (w1 as int),
                k + w1 - 1 == w1 * ((k + w1 - 1) / (w1 as int)) + (k + w1 - 1) % (w1 as int),
                (k + w1 - 1) % (w1 as int) < w1,
        ;
        assert(c1 * w2 >= c1 * w1) by (nonlinear_arith)
            requires
                w1 <= w2,
        ;
        lemma_div_is_ordered((k + w2 - 1) as int, (c1 * w2 + w2 - 1) as int, w2 as int);
        lemma_fundamental_div_mod_converse((c1 * w2 + w2 - 1) as int, w2 as int, c1 as int, (w2 - 1) as int);
    }
    let l1 = spec_max(c1 as int, 1) as nat;
    let l2 = spec_max(c2 as int, 1) as nat;
    lemma_leaf_count_antitone(k, l2, l1);
    let leaf = spec_leaf_scratch(plan);
    let n1 = spec_leaf_count(k, l1);
    let n2 = spec_leaf_count(k, l2);
    assert(leaf * n1 <= leaf * n2) by (nonlinear_arith)
        requires
            n1 <= n2,
    ;
}

/// A product transform's workspace grows with its twiddle slots, and so does
/// a square transform's.
pub proof fn lemma_transform_scratch_grows_with_slots(plan: FftPlan, s1: nat, s2: nat)
    requires
        s1 <= s2,
    ensures
        spec_transform_mul_scratch(plan, s1) <= spec_transform_mul_scratch(plan, s2),
        spec_transform_sqr_scratch(plan, s1) <= spec_transform_sqr_scratch(plan, s2),
        spec_transform_mul_scratch(plan, s2) <= usize::MAX,
        spec_transform_sqr_scratch(plan, s2) <= usize::MAX,
{
    let c1 = if s1 == 0 {
        1
    } else {
        s1
    };
    let c2 = if s2 == 0 {
        1
    } else {
        s2
    };
    assert(c1 <= c2);
    lemma_pointwise_scratch_monotone(plan, c1, c2);
    let m = plan.mat_limbs as nat;
    let cl = plan.inner_cl as nat;
    let r = plan.recon_len as nat;
    let pw1 = spec_pointwise_scratch(plan, c1);
    let pw2 = spec_pointwise_scratch(plan, c2);
    assert(cl * c1 <= cl * c2) by (nonlinear_arith)
        requires
            c1 <= c2,
    ;
    // Product transform.
    if m * 2 > usize::MAX || cl * c2 * 2 > usize::MAX {
        if !(m * 2 > usize::MAX || cl * c1 * 2 > usize::MAX) {
            let x = add_or_max_spec((m * 2) as nat, (cl * c1 * 2) as nat);
            let y = add_or_max_spec(x, pw1);
            assert(add_or_max_spec(y, r) <= usize::MAX);
        }
    } else {
        lemma_add_or_max_monotone((m * 2) as nat, (cl * c1 * 2) as nat, (m * 2) as nat, (cl * c2 * 2) as nat);
        let x1 = add_or_max_spec((m * 2) as nat, (cl * c1 * 2) as nat);
        let x2 = add_or_max_spec((m * 2) as nat, (cl * c2 * 2) as nat);
        lemma_add_or_max_monotone(x1, pw1, x2, pw2);
        let y1 = add_or_max_spec(x1, pw1);
        let y2 = add_or_max_spec(x2, pw2);
        lemma_add_or_max_monotone(y1, r, y2, r);
    }
    // Square transform.
    if cl * c2 > usize::MAX {
        if cl * c1 <= usize::MAX {
            let x = add_or_max_spec(m, (cl * c1) as nat);
            let y = add_or_max_spec(x, pw1);
            assert(add_or_max_spec(y, r) <= usize::MAX);
        }
    } else {
        lemma_add_or_max_monotone(m, (cl * c1) as nat, m, (cl * c2) as nat);
        let x1 = add_or_max_spec(m, (cl * c1) as nat);
        let x2 = add_or_max_spec(m, (cl * c2) as nat);
        lemma_add_or_max_monotone(x1, pw1, x2, pw2);
        let y1 = add_or_max_spec(x1, pw1);
        let y2 = add_or_max_spec(x2, pw2);
        lemma_add_or_max_monotone(y1, r, y2, r);
    }
}

} // verus!
