//! Transform-side policy: when a transform range is worth splitting across
//! workers, and the shift the inverse twist applies to each coefficient.

use crate::num::ceil_div;
use crate::ssa::plan::InverseTwist;
use crate::limbs::Limb;
use crate::ssa::pointwise::slot_at;
use crate::ssa::ring::SsaRing;
use crate::ssa::tuning::SSA_PARALLEL_MIN_LIMB_WORK;
use vstd::prelude::*;

verus! {

/// Reduction modulo a period, with a zero period reducing to zero.
pub open spec fn reduce_mod(x: usize, period: usize) -> usize {
    if period == 0 {
        0
    } else {
        (x % period) as usize
    }
}

/// The combined inverse-twist and `1 / transform_len` shift of coefficient
/// `index`, in half-bit units and reduced modulo the doubled period
/// `4 * inner_bits`, computed in word arithmetic.
pub open spec fn spec_shift_for(twist: InverseTwist, index: usize) -> usize {
    let full_period = twist.inner_bits.wrapping_mul(4);
    let scale_shift = twist.inner_bits.wrapping_sub(twist.transform_log).wrapping_mul(2);
    let untwist = index.wrapping_mul(twist.twist_step_half);
    let inverse_shift = reduce_mod(
        twist.inner_bits.wrapping_mul(2).wrapping_add(full_period).wrapping_sub(untwist),
        full_period,
    );
    reduce_mod(inverse_shift.wrapping_add(scale_shift), full_period)
}

/// Whether `item_count` items of `unit_limb_work` limbs each give every one
/// of `workers` workers enough work to repay a fork.
pub open spec fn spec_has_parallel_work(item_count: nat, unit_limb_work: nat, workers: nat) -> bool {
    &&& workers > 1
    &&& item_count >= 2
    &&& item_count * unit_limb_work <= usize::MAX
    &&& ceil_div(item_count * unit_limb_work, workers) >= SSA_PARALLEL_MIN_LIMB_WORK
}

impl InverseTwist {
    /// The shift, in half-bit units, that folds the inverse twiddle of
    /// coefficient `index` together with the `1 / transform_len` scaling,
    /// reduced modulo the ring period. An odd result denotes a remaining
    /// `sqrt(2)` factor.
    pub fn shift_for(&self, index: usize) -> (shift: usize)
        ensures
            shift == spec_shift_for(*self, index),
            self.inner_bits > 0 && self.inner_bits * 4 <= usize::MAX ==> shift < 4
                * self.inner_bits,
    {
        let full_period = self.inner_bits.wrapping_mul(4);
        proof {
            if self.inner_bits * 4 <= usize::MAX {
                vstd::arithmetic::div_mod::lemma_small_mod(
                    (self.inner_bits * 4) as nat,
                    (usize::MAX + 1) as nat,
                );
            }
        }
        let scale_shift = self.inner_bits.wrapping_sub(self.transform_log).wrapping_mul(2);
        let untwist = index.wrapping_mul(self.twist_step_half);
        let inverse_shift = SsaRing::reduce_mod_period(
            self.inner_bits.wrapping_mul(2).wrapping_add(full_period).wrapping_sub(untwist),
            full_period,
        );
        SsaRing::reduce_mod_period(inverse_shift.wrapping_add(scale_shift), full_period)
    }
}

/// Namespace for transform-range policy.
pub struct SsaTransform;

impl SsaTransform {
    /// Whether a recursive transform range should fork: it has enough work
    /// per worker and the scratch holds two private coefficient slots.
    pub fn should_parallelize(
        transform_len: usize,
        coeff_limbs: usize,
        scratch_len: usize,
        workers: usize,
    ) -> (fork: bool)
        ensures
            fork == (coeff_limbs * 2 <= usize::MAX && spec_has_parallel_work(
                transform_len as nat,
                coeff_limbs as nat,
                workers as nat,
            ) && scratch_len >= coeff_limbs * 2),
    {
        let two_slots = match coeff_limbs.checked_mul(2) {
            Some(slots) => slots,
            None => {
                return false;
            },
        };
        Self::has_parallel_work(transform_len, coeff_limbs, workers) && scratch_len >= two_slots
    }

    /// Whether a disjoint range of `item_count` items of `unit_limb_work`
    /// limbs each carries enough estimated work per worker to repay a fork.
    pub fn has_parallel_work(item_count: usize, unit_limb_work: usize, workers: usize) -> (fork:
        bool)
        ensures
            fork == spec_has_parallel_work(item_count as nat, unit_limb_work as nat, workers as nat),
    {
        if workers <= 1 || item_count < 2 {
            return false;
        }
        match item_count.checked_mul(unit_limb_work) {
            Some(work) => crate::num::div_ceil(work, workers) >= SSA_PARALLEL_MIN_LIMB_WORK,
            None => false,
        }
    }

    /// Whether a radix-4 level can expose two independent child pairs: the
    /// scratch holds four private coefficient slots.
    pub fn can_fork_four(coeff_limbs: usize, scratch_len: usize) -> (fork: bool)
        ensures
            fork == (coeff_limbs * 4 <= usize::MAX && scratch_len >= coeff_limbs * 4),
    {
        match coeff_limbs.checked_mul(4) {
            Some(four_slots) => scratch_len >= four_slots,
            None => false,
        }
    }
}

impl SsaTransform {
    /// The coefficient at `index` of a matrix of `coeff_limbs`-limb slots.
    pub fn coeff(buf: &[Limb], index: usize, coeff_limbs: usize) -> (slot: &[Limb])
        requires
            (index + 1) * coeff_limbs <= buf@.len(),
        ensures
            slot@ == slot_at(buf@, index as int, coeff_limbs as int),
    {
        let len = buf.len();
        proof {
            vstd::arithmetic::mul::lemma_mul_is_distributive_add_other_way(coeff_limbs as int, index as int, 1);
            assert(index * coeff_limbs + coeff_limbs <= len);
        }
        let offset = index * coeff_limbs;
        &buf[offset..offset + coeff_limbs]
    }

    /// The coefficient at `index` of a matrix of `coeff_limbs`-limb slots,
    /// writable; the rest of the matrix is kept.
    pub fn coeff_mut(buf: &mut [Limb], index: usize, coeff_limbs: usize) -> (slot: &mut [Limb])
        requires
            (index + 1) * coeff_limbs <= old(buf)@.len(),
        ensures
            slot@ == slot_at(old(buf)@, index as int, coeff_limbs as int),
            final(buf)@ == old(buf)@.subrange(0, index * coeff_limbs) + final(slot)@ + old(buf)@.subrange(
                (index + 1) * coeff_limbs,
                old(buf)@.len() as int,
            ),
    {
        let len = buf.len();
        proof {
            vstd::arithmetic::mul::lemma_mul_is_distributive_add_other_way(coeff_limbs as int, index as int, 1);
            assert(index * coeff_limbs + coeff_limbs <= len);
        }
        let offset = index * coeff_limbs;
        let (_, rest) = buf.split_at_mut(offset);
        let (slot, _) = rest.split_at_mut(coeff_limbs);
        slot
    }
}

/// What the inverse-twist shift is, stated directly: when nothing wraps, the
/// shift of coefficient `index` is below `4 * inner_bits` and, added to the
/// forward twist `index * twist_step_half` and to twice the transform's
/// logarithm, makes a whole number of periods `4 * inner_bits`; so it undoes
/// the twist and divides by `2^transform_log` modulo `2^inner_bits + 1`.
pub proof fn lemma_shift_for_inverts(twist: InverseTwist, index: usize)
    requires
        twist.inner_bits > 0,
        twist.inner_bits * 8 <= usize::MAX,
        twist.transform_log <= twist.inner_bits,
        index * twist.twist_step_half <= 2 * twist.inner_bits,
    ensures
        spec_shift_for(twist, index) < 4 * twist.inner_bits,
        (spec_shift_for(twist, index) + index * twist.twist_step_half + 2 * twist.transform_log) % (4
            * twist.inner_bits as int) == 0,
{
    let n = twist.inner_bits as int;
    let full = 4 * n;
    let u = index * twist.twist_step_half;
    let inverse = (2 * n + full - u) % full;
    let scale = 2 * (n - twist.transform_log);
    let range = (usize::MAX + 1) as nat;
    vstd::arithmetic::div_mod::lemma_small_mod((4 * n) as nat, range);
    vstd::arithmetic::div_mod::lemma_small_mod((2 * n) as nat, range);
    vstd::arithmetic::div_mod::lemma_small_mod(u as nat, range);
    vstd::arithmetic::div_mod::lemma_small_mod((2 * (n - twist.transform_log)) as nat, range);
    assert(twist.inner_bits.wrapping_mul(4) == 4 * n);
    assert(twist.inner_bits.wrapping_mul(2) == 2 * n);
    assert(index.wrapping_mul(twist.twist_step_half) == u);
    assert(twist.inner_bits.wrapping_sub(twist.transform_log) == n - twist.transform_log);
    assert(twist.inner_bits.wrapping_sub(twist.transform_log).wrapping_mul(2) == scale);
    assert(twist.inner_bits.wrapping_mul(2).wrapping_add(full as usize) == 6 * n);
    assert(twist.inner_bits.wrapping_mul(2).wrapping_add(full as usize).wrapping_sub(u as usize) == 6 * n - u);
    vstd::arithmetic::div_mod::lemma_mod_bound(6 * n - u, full);
    assert(reduce_mod((6 * n - u) as usize, full as usize) == inverse);
    assert((inverse as usize).wrapping_add(scale as usize) == inverse + scale);
    assert(spec_shift_for(twist, index) == ((inverse + scale) % full) as usize);
    vstd::arithmetic::div_mod::lemma_mod_bound(2 * n + full - u, full);
    vstd::arithmetic::div_mod::lemma_mod_bound(inverse + scale, full);
    // inverse + u = 2n and scale + 2 log = 2n, both modulo 4n.
    let q1 = (6 * n - u) / full;
    let q2 = (inverse + scale) / full;
    vstd::arithmetic::div_mod::lemma_fundamental_div_mod(6 * n - u, full);
    vstd::arithmetic::div_mod::lemma_fundamental_div_mod(inverse + scale, full);
    let sh = (inverse + scale) % full;
    assert(sh + u + 2 * twist.transform_log == full * (2 - q1 - q2)) by (nonlinear_arith)
        requires
            6 * n - u == full * q1 + inverse,
            inverse + scale == full * q2 + sh,
            scale == 2 * (n - twist.transform_log),
            full == 4 * n,
    ;
    vstd::arithmetic::div_mod::lemma_mod_multiples_basic(2 - q1 - q2, full);
    vstd::arithmetic::mul::lemma_mul_is_commutative(2 - q1 - q2, full);
}

} // verus!
