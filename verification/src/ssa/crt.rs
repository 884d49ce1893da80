//! The Chinese Remainder split modulo `B^n - 1` and its reconstructions.
//!
//! The top-level products pair one `B^n + 1` residue with one `B^n - 1`
//! residue and merge the two; this module computes the second half, sizes the
//! workspace both halves are cut from, and performs both merges.

use crate::basecase::Multiplication;
use crate::kernels::Addition;
use crate::limbs::{
    Limb, all_max, lemma_val_all_max, lemma_val_zero, lemma_val_prefix_step, lemma_val_single, lemma_pow_b_add, lemma_pow_b_pos, lemma_val_bound, lemma_val_split, pow_b, radix,
    val,
};
use crate::num::{sat, spec_max};
use crate::ssa::carry::SsaCarry;
use crate::ssa::ring::{canonical, lemma_canonical_shape, slot_value};
use crate::ssa::transform::SsaTransform;
use crate::ssa::plan::halvable;
use crate::ssa::plan::{
    FftPlan, Geometry, add_or_max_spec, spec_from_geometry, spec_transform_mul_scratch,
    spec_transform_sqr_scratch, spec_fft_plan, spec_pointwise_scratch, spec_required_mul_scratch,
    spec_required_sqr_scratch,
};
use crate::ssa::tuning::SSA_BASE_MODULUS_BITS;
use crate::ssa::tuning::SSA_BNM1_BASECASE_LIMBS;
use vstd::arithmetic::div_mod::*;
use vstd::arithmetic::mul::*;
use vstd::prelude::*;

verus! {

/// `min(a + b, usize::MAX)`.
pub open spec fn sadd(a: nat, b: nat) -> nat {
    sat((a + b) as int)
}

/// Workspace of one `B^n - 1` product on `n`-limb operands.
pub open spec fn spec_mul_mod_bnm1_scratch_len(n: nat) -> nat
    decreases n, 0nat,
{
    if n <= SSA_BNM1_BASECASE_LIMBS {
        sadd(n * 2, 0)
    } else if (n / 2) * 64 > usize::MAX {
        usize::MAX as nat
    } else {
        spec_layout_len(n / 2, spec_required_mul_scratch(spec_fft_plan((n / 2) * 64)))
    }
}

/// Workspace of one `B^n - 1` square of an `n`-limb operand.
pub open spec fn spec_sqr_mod_bnm1_scratch_len(n: nat) -> nat
    decreases n, 0nat,
{
    if n <= SSA_BNM1_BASECASE_LIMBS {
        sadd(n * 2, 0)
    } else if (n / 2) * 64 > usize::MAX {
        usize::MAX as nat
    } else {
        spec_sqr_layout_len(n / 2, spec_required_sqr_scratch(spec_fft_plan((n / 2) * 64)))
    }
}

/// `[xp: h+1] [xm: h]`, then the larger of the two halves' working regions:
/// two padded operands and the ring scratch, or two folded operands and the
/// recursion's own workspace. Saturates at `usize::MAX`.
pub open spec fn spec_layout_len(half_width: nat, ring_scratch: nat) -> nat
    decreases half_width, 1nat,
{
    let residues = sadd(half_width + 1, half_width);
    let fermat_half = sadd(sadd(half_width + 1, half_width + 1), ring_scratch);
    let mersenne_half = sadd(sadd(half_width, half_width), spec_mul_mod_bnm1_scratch_len(half_width));
    sadd(residues, spec_max(fermat_half as int, mersenne_half as int) as nat)
}

/// The squaring layout: one operand per half instead of two.
pub open spec fn spec_sqr_layout_len(half_width: nat, ring_scratch: nat) -> nat
    decreases half_width, 1nat,
{
    let residues = sadd(half_width + 1, half_width);
    let fermat_half = sadd(half_width + 1, ring_scratch);
    let mersenne_half = sadd(half_width, spec_sqr_mod_bnm1_scratch_len(half_width));
    sadd(residues, spec_max(fermat_half as int, mersenne_half as int) as nat)
}

/// Saturating addition of two words.
fn sat_add(a: usize, b: usize) -> (r: usize)
    ensures
        r == sadd(a as nat, b as nat),
{
    a.saturating_add(b)
}

/// Namespace for the `B^n - 1` half of the CRT split and its reconstructions.
pub struct SsaCrt;

impl SsaCrt {
    /// Scratch required by one `mul_mod_bnm1` call on `n`-limb operands,
    /// saturating at `usize::MAX` when the layout is unrepresentable.
    pub fn mul_mod_bnm1_scratch_len(n: usize) -> (len: usize)
        ensures
            len == spec_mul_mod_bnm1_scratch_len(n as nat),
        decreases n, 0nat,
    {
        if n <= SSA_BNM1_BASECASE_LIMBS {
            return sat_add(n * 2, Multiplication::required_scratch(n, n));
        }
        let h = n / 2;
        let ring_bits = match h.checked_mul(64) {
            Some(bits) => bits,
            None => {
                return usize::MAX;
            },
        };
        Self::layout_len(h, FftPlan::new(ring_bits).required_mul_scratch())
    }

    /// Computes `dst = a * b mod (B^n - 1)`, where `n` is the common width of
    /// the three slices.
    ///
    /// Halves `n` at every level until it reaches the basecase width, so `n`
    /// must stay even the whole way down; `n` need not be a power of two. The
    /// result may be the all-ones representative of zero.
    #[verifier::rlimit(40)]
    #[verifier::spinoff_prover]
    pub fn mul_mod_bnm1(dst: &mut [Limb], a: &[Limb], b: &[Limb], scratch: &mut [Limb])
        requires
            a@.len() == b@.len(),
            old(dst)@.len() == a@.len(),
            halvable(a@.len() as nat),
            a@.len() * 64 <= usize::MAX,
            spec_mul_mod_bnm1_scratch_len(a@.len() as nat) < usize::MAX,
            old(scratch)@.len() >= spec_mul_mod_bnm1_scratch_len(a@.len() as nat),
        ensures
            final(dst)@.len() == old(dst)@.len(),
            final(scratch)@.len() == old(scratch)@.len(),
            a@.len() > 0 ==> (val(final(dst)@) as int) % mersenne_modulus(a@.len() as nat) == (
            val(a@) * val(b@)) as int % mersenne_modulus(a@.len() as nat),
        decreases a@.len(),
    {
        let n = a.len();
        if n == 0 {
            return;
        }
        proof {
            lemma_pow_b_even(n as nat);
        }
        if n <= SSA_BNM1_BASECASE_LIMBS {
            let (prod, _) = scratch.split_at_mut(n * 2);
            Multiplication::mul_limbs(prod, a, b);
            Self::fold_product(dst, prod);
            return;
        }
        proof {
            lemma_mul_layout_fits(n as nat);
        }
        let h = n / 2;
        let ghost big = pow_b(h as nat) as int;
        proof {
            lemma_pow_b_even(h as nat);
            crate::limbs::lemma_pow_b_add(h as nat, h as nat);
            assert(n == h + h);
        }
        let (xp, rest1) = scratch.split_at_mut(h + 1);
        let (xm, rest2) = rest1.split_at_mut(h);
        {
            let (left_padded, rest3) = rest2.split_at_mut(h + 1);
            let (right_padded, ring_scratch) = rest3.split_at_mut(h + 1);
            fermat_operand(left_padded, a, h);
            fermat_operand(right_padded, b, h);
            proof {
                assert((h * 64) / 64 == h);
            }
            SsaTransform::fft_mul_mod_slices(xp, left_padded, right_padded, h * 64, None, false, None, ring_scratch);
            proof {
                let sl = slot_value(left_padded@, h as nat) as int;
                let sr = slot_value(right_padded@, h as nat) as int;
                lemma_mod_equivalence(slot_value(xp@, h as nat) as int, sl * sr, big + 1);
                lemma_cong_mul(sl, sr, val(a@) as int, val(b@) as int, big + 1);
                lemma_cong_trans(
                    slot_value(xp@, h as nat) as int,
                    sl * sr,
                    (val(a@) * val(b@)) as int,
                    big + 1,
                );
            }
        }
        let ghost xp_slot = slot_value(xp@, h as nat) as int;
        proof {
            lemma_canonical_shape(xp@, h as nat);
        }
        {
            let (left_folded, rest3) = rest2.split_at_mut(h);
            let (right_folded, xm_scratch) = rest3.split_at_mut(h);
            mersenne_operand(left_folded, a, h);
            mersenne_operand(right_folded, b, h);
            proof {
                assert(halvable(n as nat));
            }
            Self::mul_mod_bnm1(xm, left_folded, right_folded, xm_scratch);
            proof {
                let fl = val(left_folded@) as int;
                let fr = val(right_folded@) as int;
                lemma_mod_equivalence(val(xm@) as int, fl * fr, big - 1);
                lemma_cong_mul(fl, fr, val(a@) as int, val(b@) as int, big - 1);
                lemma_cong_trans(val(xm@) as int, fl * fr, (val(a@) * val(b@)) as int, big - 1);
            }
        }
        let ghost xm_val = val(xm@) as int;
        merge_crt_halves(dst, xp, xm, h, n);
        proof {
            let ab = (val(a@) * val(b@)) as int;
            let d = val(dst@) as int;
            lemma_cong_trans(d, xp_slot, ab, big + 1);
            lemma_cong_trans(d, xm_val, ab, big - 1);
            lemma_crt_combine(d - ab, big);
            assert((big + 1) * (big - 1) == mersenne_modulus(n as nat)) by (nonlinear_arith)
                requires
                    mersenne_modulus(n as nat) == big * big - 1,
            ;
            lemma_cong_mod(d, ab, mersenne_modulus(n as nat));
        }
    }

    /// Computes `dst = a * a mod (B^n - 1)`, where `n` is the common width of
    /// both slices.
    ///
    /// The same split as [`Self::mul_mod_bnm1`] with one operand per half:
    /// modulo `B^h + 1` the operand reduces to `a_low - a_high`, modulo
    /// `B^h - 1` to `a_low + a_high`, and each residue is squared.
    pub fn sqr_mod_bnm1(dst: &mut [Limb], a: &[Limb], scratch: &mut [Limb])
        requires
            old(dst)@.len() == a@.len(),
            halvable(a@.len() as nat),
            a@.len() * 64 <= usize::MAX,
            spec_sqr_mod_bnm1_scratch_len(a@.len() as nat) < usize::MAX,
            old(scratch)@.len() >= spec_sqr_mod_bnm1_scratch_len(a@.len() as nat),
        ensures
            final(dst)@.len() == old(dst)@.len(),
            final(scratch)@.len() == old(scratch)@.len(),
            a@.len() > 0 ==> (val(final(dst)@) as int) % mersenne_modulus(a@.len() as nat) == (
            val(a@) * val(a@)) as int % mersenne_modulus(a@.len() as nat),
        decreases a@.len(),
    {
        let n = a.len();
        if n == 0 {
            return;
        }
        proof {
            lemma_pow_b_even(n as nat);
        }
        if n <= SSA_BNM1_BASECASE_LIMBS {
            let (prod, _) = scratch.split_at_mut(n * 2);
            Multiplication::sqr_limbs(prod, a);
            Self::fold_product(dst, prod);
            return;
        }
        proof {
            lemma_sqr_layout_fits(n as nat);
        }
        let h = n / 2;
        let ghost big = pow_b(h as nat) as int;
        proof {
            lemma_pow_b_even(h as nat);
            crate::limbs::lemma_pow_b_add(h as nat, h as nat);
            assert(n == h + h);
        }
        let (xp, rest1) = scratch.split_at_mut(h + 1);
        let (xm, rest2) = rest1.split_at_mut(h);
        {
            let (padded, ring_scratch) = rest2.split_at_mut(h + 1);
            fermat_operand(padded, a, h);
            proof {
                assert((h * 64) / 64 == h);
            }
            SsaTransform::fft_sqr_mod_slices(xp, padded, h * 64, false, None, ring_scratch);
            proof {
                let sl = slot_value(padded@, h as nat) as int;
                lemma_mod_equivalence(slot_value(xp@, h as nat) as int, sl * sl, big + 1);
                lemma_cong_mul(sl, sl, val(a@) as int, val(a@) as int, big + 1);
                lemma_cong_trans(
                    slot_value(xp@, h as nat) as int,
                    sl * sl,
                    (val(a@) * val(a@)) as int,
                    big + 1,
                );
            }
        }
        let ghost xp_slot = slot_value(xp@, h as nat) as int;
        proof {
            lemma_canonical_shape(xp@, h as nat);
        }
        {
            let (folded, xm_scratch) = rest2.split_at_mut(h);
            mersenne_operand(folded, a, h);
            Self::sqr_mod_bnm1(xm, folded, xm_scratch);
            proof {
                let f = val(folded@) as int;
                lemma_mod_equivalence(val(xm@) as int, f * f, big - 1);
                lemma_cong_mul(f, f, val(a@) as int, val(a@) as int, big - 1);
                lemma_cong_trans(val(xm@) as int, f * f, (val(a@) * val(a@)) as int, big - 1);
            }
        }
        let ghost xm_val = val(xm@) as int;
        merge_crt_halves(dst, xp, xm, h, n);
        proof {
            let aa = (val(a@) * val(a@)) as int;
            let d = val(dst@) as int;
            lemma_cong_trans(d, xp_slot, aa, big + 1);
            lemma_cong_trans(d, xm_val, aa, big - 1);
            lemma_crt_combine(d - aa, big);
            assert((big + 1) * (big - 1) == mersenne_modulus(n as nat)) by (nonlinear_arith)
                requires
                    mersenne_modulus(n as nat) == big * big - 1,
            ;
            lemma_cong_mod(d, aa, mersenne_modulus(n as nat));
        }
    }

    /// Folds a full `2n`-limb product into `n` limbs modulo `B^n - 1`.
    fn fold_product(dst: &mut [Limb], prod: &[Limb])
        requires
            old(dst)@.len() >= 1,
            prod@.len() == 2 * old(dst)@.len(),
        ensures
            final(dst)@.len() == old(dst)@.len(),
            (val(final(dst)@) as int) % mersenne_modulus(old(dst)@.len() as nat) == (val(prod@) as int)
                % mersenne_modulus(old(dst)@.len() as nat),
    {
        let n = dst.len();
        let ghost big = pow_b(n as nat) as int;
        proof {
            lemma_pow_b_even(n as nat);
            lemma_val_split(prod@, n as int);
        }
        let low = &prod[0..n];
        let high = &prod[n..prod.len()];
        proof {
            assert(prod@.subrange(0, n as int) =~= low@);
            assert(prod@.subrange(n as int, prod@.len() as int) =~= high@);
        }
        Addition::copy_prefix(dst, low);
        proof {
            assert(dst@ =~= low@);
        }
        let carry = Addition::add_slice_in_place(dst, high);
        proof {
            assert(dst@.subrange(0, n as int) =~= dst@);
            assert(low@.subrange(0, n as int) =~= low@);
        }
        let ghost d1 = val(dst@) as int;
        let wraps = wrap_carry(dst, carry);
        proof {
            let q = 0 - val(high@) - wraps@;
            assert(val(dst@) - val(prod@) == q * (big - 1)) by (nonlinear_arith)
                requires
                    val(dst@) + wraps@ * (big - 1) == d1 + carry * big,
                    d1 + carry * big == val(low@) + val(high@),
                    val(prod@) == val(low@) + big * val(high@),
                    q == 0 - val(high@) - wraps@,
            ;
            lemma_mod_multiples_basic(q, big - 1);
            lemma_cong_mod(val(dst@) as int, val(prod@) as int, big - 1);
        }
    }

    /// Reconstructs the exact product from the two top-level residues: `xp`
    /// modulo `B^n + 1` (a canonical slot of `n + 1` limbs) and `xm` modulo
    /// `B^n - 1` (`n` limbs), writing it truncated to the width of `dst` and
    /// zero-extended beyond `2n` limbs.
    ///
    /// The value is `xp + k * (B^n + 1)` with `k = (xm - xp) / 2` modulo
    /// `B^n - 1` taken in `[0, B^n - 2]`; `xm` is dead on entry and becomes `k`.
    pub fn merge_exact_product(dst: &mut [Limb], xp: &[Limb], xm: &mut [Limb])
        requires
            old(xm)@.len() > 0,
            old(xm)@.len() * 2 <= usize::MAX,
            xp@.len() == old(xm)@.len() + 1,
            canonical(xp@, old(xm)@.len() as nat),
        ensures
            final(dst)@.len() == old(dst)@.len(),
            final(xm)@.len() == old(xm)@.len(),
            forall|x: int|
                #![trigger crt_reconstructs(x, xp@, old(xm)@, old(xm)@.len() as nat)]
                crt_reconstructs(x, xp@, old(xm)@, old(xm)@.len() as nat) ==> val(final(dst)@)
                    == x % (pow_b(old(dst)@.len() as nat) as int),
    {
        let n = xm.len();
        let ghost m0 = val(xm@) as int;
        let ghost big = pow_b(n as nat) as int;
        let ghost xl = val(xp@.subrange(0, n as int)) as int;
        let ghost g = xp@[n as int] as int;
        let ghost xpv = slot_value(xp@, n as nat) as int;
        proof {
            lemma_pow_b_even(n as nat);
            lemma_canonical_shape(xp@, n as nat);
            lemma_val_prefix_step(xp@, n as int);
            assert(xp@.subrange(0, n + 1) =~= xp@.subrange(0, n as int + 1));
            assert(xpv == xl + g * big);
            crate::limbs::lemma_pow_b_add(n as nat, n as nat);
            assert(2 * n == n + n);
        }
        let k = xm;
        let j = halve_difference(k, xp, n);
        let ghost k_seq = k@;
        if is_all_max(k) {
            Addition::fill_zero(k);
        }
        let ghost kv = val(k@) as int;
        proof {
            lemma_val_bound(k_seq);
            if all_max(k_seq) {
                lemma_val_all_max(k_seq);
                lemma_val_zero(k@);
            } else {
                if val(k_seq) + 1 == pow_b(n as nat) {
                    crate::limbs::lemma_val_all_max_converse(k_seq);
                }
            }
            // kv is the normalized half difference: at most B^n - 2, and twice
            // it is m0 - xpv up to a multiple of B^n - 1.
            assert(0 <= kv <= big - 2);
            let jj: int = if all_max(k_seq) { j@ - 2 } else { j@ };
            assert(2 * kv == m0 - xpv + jj * (big - 1)) by (nonlinear_arith)
                requires
                    2 * val(k_seq) == m0 - xpv + j@ * (big - 1),
                    all_max(k_seq) ==> (val(k_seq) + 1 == big && kv == 0),
                    !all_max(k_seq) ==> kv == val(k_seq),
                    jj == (if all_max(k_seq) { j@ - 2 } else { j@ }),
            ;
            let x0 = xpv + kv * (big + 1);
            assert(0 <= x0 < big * big - 1) by (nonlinear_arith)
                requires
                    0 <= xpv <= big,
                    0 <= kv <= big - 2,
                    x0 == xpv + kv * (big + 1),
            ;
            assert(x0 - xpv == kv * (big + 1));
            lemma_mod_multiples_basic(kv, big + 1);
            assert(x0 - m0 == (kv + jj) * (big - 1)) by (nonlinear_arith)
                requires
                    x0 == xpv + kv * (big + 1),
                    2 * kv == m0 - xpv + jj * (big - 1),
            ;
            lemma_mod_multiples_basic(kv + jj, big - 1);
            assert forall|x: int|
                #![trigger crt_reconstructs(x, xp@, old(xm)@, n as nat)]
                crt_reconstructs(x, xp@, old(xm)@, n as nat) implies x == x0 by {
                assert((xpv - x0) % (big + 1) == 0) by {
                    lemma_mod_multiples_basic(-kv, big + 1);
                    assert(xpv - x0 == (-kv) * (big + 1)) by (nonlinear_arith)
                        requires
                            x0 - xpv == kv * (big + 1),
                    ;
                }
                assert((m0 - x0) % (big - 1) == 0) by {
                    lemma_mod_multiples_basic(-(kv + jj), big - 1);
                    assert(m0 - x0 == (-(kv + jj)) * (big - 1)) by (nonlinear_arith)
                        requires
                            x0 - m0 == (kv + jj) * (big - 1),
                    ;
                }
                lemma_cong_trans(x, xpv, x0, big + 1);
                lemma_cong_trans(x, m0, x0, big - 1);
                lemma_crt_combine(x - x0, big);
                assert((big + 1) * (big - 1) == big * big - 1) by (nonlinear_arith);
                lemma_unique_below(x, x0, big * big - 1);
            }
        }
        let ghost x0 = xpv + kv * (big + 1);
        let full_width = n * 2;
        let max_len = if dst.len() < full_width {
            dst.len()
        } else {
            full_width
        };
        let ghost len0 = dst@.len();
        let ghost low_final: Seq<Limb>;
        let ghost tail_final: Seq<Limb>;
        {
            let (low, tail) = dst.split_at_mut(max_len);
            Addition::fill_zero(tail);
            Self::write_exact_low(low, xp, k);
            proof {
                low_final = low@;
                tail_final = tail@;
                lemma_val_zero(tail@);
            }
        }
        proof {
            assert(dst@ =~= low_final + tail_final);
            crate::limbs::lemma_val_concat(low_final, tail_final);
            lemma_mul_basics(pow_b(low_final.len()) as int);
            assert(val(dst@) == val(low_final));
            lemma_val_bound(k@);
            assert(0 <= x0 < big * big - 1) by (nonlinear_arith)
                requires
                    0 <= xpv <= big,
                    0 <= kv <= big - 2,
                    x0 == xpv + kv * (big + 1),
            ;
            if len0 > full_width {
                crate::limbs::lemma_pow_b_monotone(full_width as nat, len0 as nat);
                lemma_small_mod(x0 as nat, pow_b(len0 as nat));
                lemma_small_mod(x0 as nat, pow_b(full_width as nat));
            }
            assert(val(dst@) == x0 % (pow_b(len0 as nat) as int));
        }
    }

    /// Writes the low `dst.len()` limbs (at most `2n`) of `xp + k * (B^n + 1)`,
    /// where `k` has `n` limbs and `xp` is a slot of `n + 1` limbs.
    fn write_exact_low(dst: &mut [Limb], xp: &[Limb], k: &[Limb])
        requires
            k@.len() > 0,
            xp@.len() == k@.len() + 1,
            xp@[k@.len() as int] <= 1,
            old(dst)@.len() <= 2 * k@.len(),
        ensures
            final(dst)@.len() == old(dst)@.len(),
            val(final(dst)@) == (slot_value(xp@, k@.len() as nat) + val(k@) * (pow_b(
                k@.len() as nat,
            ) + 1)) as int % (pow_b(old(dst)@.len() as nat) as int),
    {
        let n = k.len();
        let m = dst.len();
        let ghost big = pow_b(n as nat) as int;
        let ghost g = xp@[n as int] as int;
        let ghost kv = val(k@) as int;
        let ghost xpv = slot_value(xp@, n as nat) as int;
        let ghost x0 = xpv + kv * (big + 1);
        proof {
            lemma_pow_b_pos(m as nat);
            lemma_val_prefix_step(xp@, n as int);
            assert(xp@.subrange(0, n + 1) =~= xp@.subrange(0, n as int + 1));
            assert(xpv == val(xp@.subrange(0, n as int)) + g * big);
        }
        if m == 0 {
            proof {
                assert(pow_b(0) == 1);
                lemma_val_zero(dst@);
            }
            return;
        }
        if m <= n {
            let xp_low = &xp[0..m];
            let k_low = &k[0..m];
            let c = Addition::add_limbs_3(dst, xp_low, k_low);
            proof {
                assert(dst@.subrange(0, m as int) =~= dst@);
                let pm = pow_b(m as nat) as int;
                lemma_val_split(xp@, m as int);
                lemma_val_split(k@, m as int);
                assert(xp@.subrange(0, m as int) =~= xp_low@);
                assert(k@.subrange(0, m as int) =~= k_low@);
                crate::limbs::lemma_pow_b_add(m as nat, (n - m) as nat);
                let xh = val(xp@.subrange(m as int, xp@.len() as int)) as int;
                let kh = val(k@.subrange(m as int, n as int)) as int;
                let q = c + xh + kh + kv * pow_b((n - m) as nat);
                lemma_val_split(xp@.subrange(0, n as int + 1), m as int);
                assert(xp@.subrange(0, n as int + 1) =~= xp@);
                assert(x0 == val(dst@) + pm * q) by (nonlinear_arith)
                    requires
                        val(dst@) + c * pm == val(xp_low@) + val(k_low@),
                        xpv == val(xp_low@) + pm * xh,
                        kv == val(k_low@) + pm * kh,
                        big == pm * pow_b((n - m) as nat),
                        x0 == xpv + kv * (big + 1),
                        q == c + xh + kh + kv * pow_b((n - m) as nat),
                ;
                lemma_val_bound(dst@);
                lemma_low_part(x0, val(dst@) as int, pm, q);
            }
        } else {
            let xp_low = &xp[0..n];
            let c = Addition::add_limbs_3(dst, xp_low, k);
            let ghost lo_val = val(dst@.subrange(0, n as int)) as int;
            let e = m - n;
            let k_low = &k[0..e];
            let ghost hi_final: Seq<Limb>;
            let ghost lo_final: Seq<Limb>;
            let ghost e1: int;
            let ghost e2: int;
            let ghost pre = dst@;
            {
                let (lo, hi) = dst.split_at_mut(n);
                proof {
                    assert(lo@ =~= pre.subrange(0, n as int));
                }
                Addition::copy_prefix(hi, k_low);
                proof {
                    assert(hi@ =~= k_low@);
                }
                let c1 = add_limb(hi, c);
                let c2 = add_limb(hi, xp[n]);
                proof {
                    hi_final = hi@;
                    lo_final = lo@;
                    e1 = c1 as int;
                    e2 = c2 as int;
                }
            }
            proof {
                let pn = big;
                let pe = pow_b(e as nat) as int;
                let pm = pow_b(m as nat) as int;
                crate::limbs::lemma_pow_b_add(n as nat, e as nat);
                assert(n + e == m);
                assert(dst@ =~= lo_final + hi_final);
                crate::limbs::lemma_val_concat(lo_final, hi_final);
                assert(lo_final =~= pre.subrange(0, n as int));
                lemma_val_split(k@, e as int);
                assert(k@.subrange(0, e as int) =~= k_low@);
                let kt = val(k@.subrange(e as int, n as int)) as int;
                let q = e1 + e2 + kt;
                assert(xp_low@ =~= xp@.subrange(0, n as int));
                assert(x0 == lo_val + pn * (c + g + kv)) by (nonlinear_arith)
                    requires
                        lo_val + c * pn == val(xp_low@) + kv,
                        xpv == val(xp_low@) + g * pn,
                        x0 == xpv + kv * (pn + 1),
                ;
                assert(c + g + kv == val(hi_final) + pe * q) by (nonlinear_arith)
                    requires
                        val(hi_final) + e1 * pe + e2 * pe == val(k_low@) + c + g,
                        kv == val(k_low@) + pe * kt,
                        q == e1 + e2 + kt,
                ;
                assert(x0 == val(dst@) + pm * q) by (nonlinear_arith)
                    requires
                        x0 == lo_val + pn * (c + g + kv),
                        c + g + kv == val(hi_final) + pe * q,
                        val(dst@) == lo_val + pn * val(hi_final),
                        pm == pn * pe,
                ;
                lemma_val_bound(dst@);
                lemma_low_part(x0, val(dst@) as int, pm, q);
            }
        }
    }

    /// Halves the first `size` limbs of `k` modulo `B^size - 1`.
    ///
    /// `2^{-1}` is `2^(64 * size - 1)` modulo `2^(64 * size) - 1`, so halving is
    /// a right shift that rotates the lowest bit into the top of the span.
    pub fn halve_mod_bnm1(k: &mut [Limb], size: usize)
        requires
            0 < size <= old(k)@.len(),
        ensures
            final(k)@.len() == old(k)@.len(),
            2 * val(final(k)@.subrange(0, size as int)) == val(old(k)@.subrange(0, size as int))
                + (old(k)@[0] % 2) * (pow_b(size as nat) - 1),
            final(k)@.subrange(size as int, old(k)@.len() as int) == old(k)@.subrange(
                size as int,
                old(k)@.len() as int,
            ),
    {
        let ghost k0 = k@;
        let lowest = k[0] & 1;
        proof {
            lemma_halve_limb(k0[0], 0);
            assert(k@.subrange(0, 0) =~= Seq::<Limb>::empty());
            assert(k0.subrange(0, 0) =~= Seq::<Limb>::empty());
            assert(val(Seq::<Limb>::empty()) == 0);
            assert(pow_b(0) == 1);
            assert((k0[0] % 2) * pow_b(0) == lowest);
        }
        let mut i: usize = 0;
        while i < size
            invariant
                0 < size <= k0.len(),
                k@.len() == k0.len(),
                0 <= i <= size,
                lowest == k0[0] % 2,
                forall|j: int| i <= j < k0.len() ==> k@[j] == k0[j],
                2 * val(k@.subrange(0, i as int)) == val(k0.subrange(0, i as int)) - lowest + (if i
                    < size {
                    k0[i as int] % 2
                } else {
                    lowest
                }) * pow_b(i as nat),
            decreases size - i,
        {
            let limb = k[i];
            let next_bit = if i + 1 < size {
                k[i + 1] & 1
            } else {
                lowest
            };
            proof {
                if i + 1 < size {
                    lemma_halve_limb(k0[i + 1], 0);
                }
                lemma_halve_limb(limb, next_bit);
            }
            let halved = (limb >> 1u64) | (next_bit << 63u64);
            let ghost before = k@;
            k[i] = halved;
            proof {
                lemma_val_prefix_step(k@, i as int);
                lemma_val_prefix_step(k0, i as int);
                assert(k@.subrange(0, i as int) =~= before.subrange(0, i as int));
                lemma_halve_step(
                    val(before.subrange(0, i as int)) as int,
                    val(k0.subrange(0, i as int)) as int,
                    limb as int,
                    halved as int,
                    next_bit as int,
                    lowest as int,
                    pow_b(i as nat) as int,
                );
                assert(pow_b((i + 1) as nat) == radix() * pow_b(i as nat));
            }
            i = i + 1;
        }
        proof {
            assert(k@.subrange(size as int, k0.len() as int) =~= k0.subrange(size as int, k0.len() as int));
            assert(k0.subrange(0, 0) =~= Seq::<Limb>::empty());
            let p = pow_b(size as nat) as int;
            assert(lowest * p - lowest == lowest * (p - 1)) by (nonlinear_arith);
        }
    }

    /// Total buffer the squaring CRT split partitions.
    pub fn sqr_layout_len(half_width: usize, ring_scratch: usize) -> (len: usize)
        ensures
            len == spec_sqr_layout_len(half_width as nat, ring_scratch as nat),
        decreases half_width, 1nat,
    {
        let coefficient_width = sat_add(half_width, 1);
        let residues = sat_add(coefficient_width, half_width);
        let fermat_half = sat_add(coefficient_width, ring_scratch);
        let mersenne_half = sat_add(half_width, sqr_mod_bnm1_scratch_len(half_width));
        let larger = if fermat_half >= mersenne_half {
            fermat_half
        } else {
            mersenne_half
        };
        proof {
            assert(coefficient_width == half_width + 1 || half_width == usize::MAX);
        }
        sat_add(residues, larger)
    }

    /// Total buffer a CRT split partitions, for a given half-width and a
    /// given cost of the `B^h + 1` ring product.
    pub fn layout_len(half_width: usize, ring_scratch: usize) -> (len: usize)
        ensures
            len == spec_layout_len(half_width as nat, ring_scratch as nat),
        decreases half_width, 1nat,
    {
        let coefficient_width = sat_add(half_width, 1);
        let residues = sat_add(coefficient_width, half_width);
        let fermat_half = sat_add(sat_add(coefficient_width, coefficient_width), ring_scratch);
        let mersenne_half = sat_add(
            sat_add(half_width, half_width),
            Self::mul_mod_bnm1_scratch_len(half_width),
        );
        let larger = if fermat_half >= mersenne_half {
            fermat_half
        } else {
            mersenne_half
        };
        sat_add(residues, larger)
    }
}

/// The Mersenne-style modulus `B^n - 1`.
pub open spec fn mersenne_modulus(n: nat) -> int {
    pow_b(n) - 1
}

/// `B^h` is even and at least `B` for every positive `h`.
proof fn lemma_pow_b_even(h: nat)
    requires
        h >= 1,
    ensures
        pow_b(h) % 2 == 0,
        pow_b(h) >= radix(),
{
    crate::limbs::lemma_pow_b_monotone(1, h);
    crate::limbs::lemma_pow_b_one();
    let rest = pow_b((h - 1) as nat) as int;
    assert(pow_b(h) == radix() * rest);
    assert(radix() * rest == (0x8000_0000_0000_0000 * rest) * 2) by (nonlinear_arith);
    lemma_mod_multiples_basic(0x8000_0000_0000_0000 * rest, 2);
}

/// The Chinese Remainder step behind the split: `p + 1` and `p - 1` are
/// coprime for even `p`, so a multiple of both is a multiple of `p^2 - 1`.
pub proof fn lemma_crt_combine(d: int, p: int)
    requires
        p >= 4,
        p % 2 == 0,
        d % (p + 1) == 0,
        d % (p - 1) == 0,
    ensures
        d % ((p + 1) * (p - 1)) == 0,
{
    lemma_fundamental_div_mod(d, p + 1);
    lemma_fundamental_div_mod(d, p - 1);
    let u = d / (p + 1);
    let w = d / (p - 1);
    let t = w - u;
    assert(2 * u == (p - 1) * t) by (nonlinear_arith)
        requires
            d == (p + 1) * u,
            d == (p - 1) * w,
            t == w - u,
    ;
    // (p - 1) is odd, so t carries the factor two.
    lemma_fundamental_div_mod(t, 2);
    lemma_fundamental_div_mod(p, 2);
    let r = t % 2;
    let half_p = p / 2;
    let half_t = t / 2;
    let z = 2 * half_p * half_t + half_p * r - half_t - u;
    assert(r == 2 * z) by (nonlinear_arith)
        requires
            2 * u == (p - 1) * t,
            t == 2 * half_t + r,
            p == 2 * half_p,
            z == 2 * half_p * half_t + half_p * r - half_t - u,
    ;
    assert(r == 0);
    let s = t / 2;
    assert(d == s * ((p + 1) * (p - 1))) by (nonlinear_arith)
        requires
            d == (p + 1) * u,
            2 * u == (p - 1) * t,
            t == 2 * s,
    ;
    assert((p + 1) * (p - 1) > 0) by (nonlinear_arith)
        requires
            p >= 4,
    ;
    lemma_mod_multiples_basic(s, (p + 1) * (p - 1));
}

/// `add_or_max_spec` never drops below its second argument.
proof fn lemma_add_or_max_covers(a: nat, b: nat)
    requires
        b <= usize::MAX,
    ensures
        add_or_max_spec(a, b) >= b,
{
}

/// The ring scratch reserved for a `B^h + 1` product leaves room for a full
/// `2h`-limb basecase product.
proof fn lemma_ring_scratch_covers(h: nat)
    requires
        h >= 1,
        h * 64 <= usize::MAX,
    ensures
        spec_required_mul_scratch(spec_fft_plan(h * 64)) >= 2 * h,
        spec_required_sqr_scratch(spec_fft_plan(h * 64)) >= 2 * h,
{
    let plan = spec_fft_plan(h * 64);
    assert(plan.modulus_bits == h * 64);
    assert((h * 64) / 64 == h);
    if plan.modulus_bits <= SSA_BASE_MODULUS_BITS {
    } else {
        assert(plan.recon_len >= 2 * h);
        lemma_add_or_max_covers(
            add_or_max_spec(
                add_or_max_spec((plan.mat_limbs * 2) as nat, (plan.inner_cl * 2 * 2) as nat),
                spec_pointwise_scratch(plan, 2),
            ),
            plan.recon_len as nat,
        );
        lemma_add_or_max_covers(
            add_or_max_spec(
                add_or_max_spec(plan.mat_limbs as nat, (plan.inner_cl * 2) as nat),
                spec_pointwise_scratch(plan, 2),
            ),
            plan.recon_len as nat,
        );
    }
}

/// Congruence modulo `m` is transitive.
proof fn lemma_cong_trans(x: int, y: int, z: int, m: int)
    requires
        m > 0,
        (x - y) % m == 0,
        (y - z) % m == 0,
    ensures
        (x - z) % m == 0,
{
    lemma_fundamental_div_mod(x - y, m);
    lemma_fundamental_div_mod(y - z, m);
    let q = (x - y) / m + (y - z) / m;
    assert(x - z == q * m) by (nonlinear_arith)
        requires
            x - y == m * ((x - y) / m),
            y - z == m * ((y - z) / m),
            q == (x - y) / m + (y - z) / m,
    ;
    lemma_mod_multiples_basic(q, m);
}

/// Congruence modulo `m` is preserved by products.
proof fn lemma_cong_mul(x: int, y: int, u: int, v: int, m: int)
    requires
        m > 0,
        (x - u) % m == 0,
        (y - v) % m == 0,
    ensures
        (x * y - u * v) % m == 0,
{
    lemma_fundamental_div_mod(x - u, m);
    lemma_fundamental_div_mod(y - v, m);
    let k1 = (x - u) / m;
    let k2 = (y - v) / m;
    let q = k1 * y + u * k2;
    assert(x * y - u * v == q * m) by (nonlinear_arith)
        requires
            x - u == m * k1,
            y - v == m * k2,
            q == k1 * y + u * k2,
    ;
    lemma_mod_multiples_basic(q, m);
}

/// Congruence modulo `m` is symmetric.
proof fn lemma_neg_cong(x: int, y: int, m: int)
    requires
        m > 0,
        (x - y) % m == 0,
    ensures
        (y - x) % m == 0,
{
    lemma_fundamental_div_mod(x - y, m);
    let q = (x - y) / m;
    assert(y - x == (0 - q) * m) by (nonlinear_arith)
        requires
            x - y == m * q,
    ;
    lemma_mod_multiples_basic(0 - q, m);
}

/// A difference divisible by `m` means equal remainders.
proof fn lemma_cong_mod(x: int, y: int, m: int)
    requires
        m > 0,
        (x - y) % m == 0,
    ensures
        x % m == y % m,
{
    lemma_mod_equivalence(x, y, m);
}

/// The workspace of a recursive `B^n - 1` product covers both of its halves.
proof fn lemma_mul_layout_fits(n: nat)
    requires
        n > SSA_BNM1_BASECASE_LIMBS,
        n * 64 <= usize::MAX,
        spec_mul_mod_bnm1_scratch_len(n) < usize::MAX,
    ensures
        spec_mul_mod_bnm1_scratch_len(n / 2) < usize::MAX,
        spec_mul_mod_bnm1_scratch_len(n) >= (2 * (n / 2) + 1) + 4 * (n / 2) + 2,
        spec_mul_mod_bnm1_scratch_len(n) >= (2 * (n / 2) + 1) + 2 * (n / 2)
            + spec_mul_mod_bnm1_scratch_len(n / 2),
{
    let h = n / 2;
    assert(h * 64 <= usize::MAX);
    lemma_ring_scratch_covers(h);
    let r = spec_required_mul_scratch(spec_fft_plan(h * 64));
    assert(spec_mul_mod_bnm1_scratch_len(n) == spec_layout_len(h, r));
}

/// The squaring workspace covers both halves the same way.
proof fn lemma_sqr_layout_fits(n: nat)
    requires
        n > SSA_BNM1_BASECASE_LIMBS,
        n * 64 <= usize::MAX,
        spec_sqr_mod_bnm1_scratch_len(n) < usize::MAX,
    ensures
        spec_sqr_mod_bnm1_scratch_len(n / 2) < usize::MAX,
        spec_sqr_mod_bnm1_scratch_len(n) >= (2 * (n / 2) + 1) + 3 * (n / 2) + 1,
        spec_sqr_mod_bnm1_scratch_len(n) >= (2 * (n / 2) + 1) + (n / 2)
            + spec_sqr_mod_bnm1_scratch_len(n / 2),
{
    let h = n / 2;
    assert(h * 64 <= usize::MAX);
    lemma_ring_scratch_covers(h);
    let r = spec_required_sqr_scratch(spec_fft_plan(h * 64));
    assert(spec_sqr_mod_bnm1_scratch_len(n) == spec_sqr_layout_len(h, r));
}

/// Writes the residue of `a` modulo `B^h + 1` (with `a` of `2h` limbs) as a
/// canonical slot of `h + 1` limbs: `a_low - a_high`, lifted by `B^h + 1`
/// when negative.
fn fermat_operand(padded: &mut [Limb], a: &[Limb], h: usize)
    requires
        h >= 1,
        old(padded)@.len() == h + 1,
        a@.len() == 2 * h,
    ensures
        final(padded)@.len() == h + 1,
        canonical(final(padded)@, h as nat),
        (slot_value(final(padded)@, h as nat) - val(a@)) % (pow_b(h as nat) + 1) as int == 0,
{
    let ghost big = pow_b(h as nat) as int;
    let a_low = &a[0..h];
    let a_high = &a[h..a.len()];
    proof {
        lemma_val_split(a@, h as int);
        assert(a@.subrange(0, h as int) =~= a_low@);
        assert(a@.subrange(h as int, 2 * h as int) =~= a_high@);
        lemma_val_bound(a_low@);
        lemma_val_bound(a_high@);
        lemma_pow_b_even(h as nat);
    }
    padded[h] = 0;
    let borrow = Addition::sub_limbs_3(padded, a_low, a_high);
    proof {
        assert(padded@.subrange(h as int, h as int + 1)[0] == padded@[h as int]);
    }
    let ghost d = val(a_low@) - val(a_high@);
    if borrow > 0 {
        let ghost p0 = padded@;
        let c;
        let ghost span_final: Seq<Limb>;
        {
            let (span, guard) = padded.split_at_mut(h);
            proof {
                assert(span@ =~= p0.subrange(0, h as int));
            }
            c = add_limb(span, 1);
            guard[0] = c;
            proof {
                span_final = span@;
            }
        }
        proof {
            assert(padded@.subrange(0, h as int) =~= span_final);
            lemma_val_prefix_step(padded@, h as int);
            assert(padded@.subrange(0, h as int + 1) =~= padded@);
            lemma_val_bound(span_final);
            lemma_val_bound(p0.subrange(0, h as int));
            assert(d <= -1);
            assert(slot_value(padded@, h as nat) == d + big + 1) by (nonlinear_arith)
                requires
                    val(span_final) + c * big == val(p0.subrange(0, h as int)) + 1,
                    val(p0.subrange(0, h as int)) - 1 * big == d,
                    slot_value(padded@, h as nat) == val(span_final) + c * big,
            ;
        }
    } else {
        proof {
            lemma_val_prefix_step(padded@, h as int);
            assert(padded@.subrange(0, h as int + 1) =~= padded@);
            assert(slot_value(padded@, h as nat) == d);
            lemma_val_bound(padded@.subrange(0, h as int));
        }
    }
    proof {
        let sv = slot_value(padded@, h as nat) as int;
        let lift: int = if borrow > 0 { 1 } else { 0 };
        assert(sv == d + lift * (big + 1));
        let q: int = val(a_high@) - lift;
        assert(sv - val(a@) == (0 - q) * (big + 1)) by (nonlinear_arith)
            requires
                sv == d + lift * (big + 1),
                d == val(a_low@) - val(a_high@),
                val(a@) == val(a_low@) + big * val(a_high@),
                q == val(a_high@) - lift,
        ;
        lemma_mod_multiples_basic(0 - q, big + 1);
    }
}

/// Writes the residue of `a` modulo `B^h - 1` (with `a` of `2h` limbs) into
/// `h` limbs: `a_low + a_high` with the carry folded back around.
fn mersenne_operand(folded: &mut [Limb], a: &[Limb], h: usize)
    requires
        h >= 1,
        old(folded)@.len() == h,
        a@.len() == 2 * h,
    ensures
        final(folded)@.len() == h,
        (val(final(folded)@) - val(a@)) % mersenne_modulus(h as nat) == 0,
{
    let ghost big = pow_b(h as nat) as int;
    let a_low = &a[0..h];
    let a_high = &a[h..a.len()];
    proof {
        lemma_val_split(a@, h as int);
        assert(a@.subrange(0, h as int) =~= a_low@);
        assert(a@.subrange(h as int, 2 * h as int) =~= a_high@);
        lemma_pow_b_even(h as nat);
    }
    let carry = Addition::add_limbs_3(folded, a_low, a_high);
    proof {
        assert(folded@.subrange(0, h as int) =~= folded@);
    }
    let ghost f0 = val(folded@) as int;
    let wraps = wrap_carry(folded, carry);
    proof {
        let q = 0 - val(a_high@) - wraps@;
        assert(val(folded@) - val(a@) == q * (big - 1)) by (nonlinear_arith)
            requires
                val(folded@) + wraps@ * (big - 1) == f0 + carry * big,
                f0 + carry * big == val(a_low@) + val(a_high@),
                val(a@) == val(a_low@) + big * val(a_high@),
                q == 0 - val(a_high@) - wraps@,
        ;
        lemma_mod_multiples_basic(q, big - 1);
    }
}

/// Every ring plan at `h * 64` bits reserves room for a `2h`-limb basecase
/// product, whatever geometry it was built from.
pub proof fn lemma_geometry_scratch_covers(h: nat, g: Geometry, slots: nat)
    requires
        h >= 1,
        h * 64 <= usize::MAX,
    ensures
        spec_required_mul_scratch(spec_from_geometry(h * 64, g)) >= 2 * h,
        spec_required_sqr_scratch(spec_from_geometry(h * 64, g)) >= 2 * h,
        spec_transform_mul_scratch(spec_from_geometry(h * 64, g), slots) >= 2 * h,
        spec_transform_sqr_scratch(spec_from_geometry(h * 64, g), slots) >= 2 * h,
{
    let plan = spec_from_geometry(h * 64, g);
    assert(plan.modulus_bits == h * 64);
    assert((h * 64) / 64 == h);
    assert(plan.recon_len >= 2 * h);
    let slot_count: nat = if slots == 0 { 1 } else { slots };
    lemma_add_or_max_covers(
        add_or_max_spec(
            add_or_max_spec((plan.mat_limbs * 2) as nat, (plan.inner_cl * slot_count * 2) as nat),
            spec_pointwise_scratch(plan, slot_count),
        ),
        plan.recon_len as nat,
    );
    lemma_add_or_max_covers(
        add_or_max_spec(
            add_or_max_spec(plan.mat_limbs as nat, (plan.inner_cl * slot_count) as nat),
            spec_pointwise_scratch(plan, slot_count),
        ),
        plan.recon_len as nat,
    );
    lemma_add_or_max_covers(
        add_or_max_spec(
            add_or_max_spec((plan.mat_limbs * 2) as nat, (plan.inner_cl * 2 * 2) as nat),
            spec_pointwise_scratch(plan, 2),
        ),
        plan.recon_len as nat,
    );
    lemma_add_or_max_covers(
        add_or_max_spec(
            add_or_max_spec(plan.mat_limbs as nat, (plan.inner_cl * 2) as nat),
            spec_pointwise_scratch(plan, 2),
        ),
        plan.recon_len as nat,
    );
}

/// A top-level product layout that is representable covers both halves.
pub proof fn lemma_top_layout_fits(n: nat, ring: nat)
    requires
        ring >= 2 * n,
        spec_layout_len(n, ring) < usize::MAX,
    ensures
        spec_mul_mod_bnm1_scratch_len(n) < usize::MAX,
        spec_layout_len(n, ring) >= (2 * n + 1) + 4 * n + 2,
        spec_layout_len(n, ring) >= (2 * n + 1) + 2 * n + spec_mul_mod_bnm1_scratch_len(n),
{
}

/// A top-level square layout that is representable covers both halves.
pub proof fn lemma_top_sqr_layout_fits(n: nat, ring: nat)
    requires
        ring >= 2 * n,
        spec_sqr_layout_len(n, ring) < usize::MAX,
    ensures
        spec_sqr_mod_bnm1_scratch_len(n) < usize::MAX,
        spec_sqr_layout_len(n, ring) >= (2 * n + 1) + 3 * n + 1,
        spec_sqr_layout_len(n, ring) >= (2 * n + 1) + n + spec_sqr_mod_bnm1_scratch_len(n),
{
}

/// Writes the residue of `a` (at most `2n` limbs) modulo `B^n + 1` as a
/// canonical slot of `n + 1` limbs.
pub(crate) fn fermat_reduce(padded: &mut [Limb], a: &[Limb], n: usize)
    requires
        n >= 1,
        old(padded)@.len() == n + 1,
        a@.len() <= 2 * n,
    ensures
        final(padded)@.len() == n + 1,
        canonical(final(padded)@, n as nat),
        (slot_value(final(padded)@, n as nat) - val(a@)) % (pow_b(n as nat) + 1) as int == 0,
{
    let ghost big = pow_b(n as nat) as int;
    proof {
        lemma_pow_b_even(n as nat);
    }
    Addition::fill_zero(padded);
    let copy = if a.len() < n {
        a.len()
    } else {
        n
    };
    let a_low = &a[0..copy];
    Addition::copy_prefix(padded, a_low);
    let ghost p0 = padded@;
    proof {
        lemma_val_split(a@, copy as int);
        assert(a@.subrange(0, copy as int) =~= a_low@);
        crate::limbs::lemma_val_concat(a_low@, p0.subrange(copy as int, n as int + 1));
        assert(p0 =~= a_low@ + p0.subrange(copy as int, n as int + 1));
        lemma_val_zero(p0.subrange(copy as int, n as int + 1));
        lemma_mul_basics(pow_b(copy as nat) as int);
        assert(p0.subrange(0, n as int + 1) =~= p0);
        assert(slot_value(p0, n as nat) == val(a_low@));
        lemma_val_bound(a_low@);
        crate::limbs::lemma_pow_b_monotone(copy as nat, n as nat);
    }
    if a.len() <= n {
        proof {
            assert(a@.subrange(copy as int, a@.len() as int) =~= Seq::<Limb>::empty());
            assert(val(a@) == val(a_low@)) by {
                lemma_mul_basics(pow_b(copy as nat) as int);
            }
            lemma_mod_multiples_basic(0, big + 1);
        }
        return;
    }
    let a_high = &a[n..a.len()];
    proof {
        assert(a@.subrange(n as int, a@.len() as int) =~= a_high@);
        lemma_val_bound(a_high@);
        crate::limbs::lemma_pow_b_monotone(a_high@.len(), n as nat);
    }
    let borrow;
    let ghost data_final: Seq<Limb>;
    let ghost guard_final: Limb;
    {
        let (data, guard) = padded.split_at_mut(n);
        proof {
            assert(data@ =~= a_low@);
        }
        let b1 = SsaCarry::sub_full_in_place(data, a_high);
        borrow = b1;
        let ghost d1 = data@;
        if b1 > 0 {
            let c = add_limb(data, 1);
            guard[0] = c;
            proof {
                lemma_val_bound(d1);
                lemma_val_bound(data@);
            }
        }
        proof {
            data_final = data@;
            guard_final = guard@[0];
        }
    }
    proof {
        assert(padded@ =~= data_final.push(guard_final));
        lemma_val_prefix_step(padded@, n as int);
        assert(padded@.subrange(0, n as int) =~= data_final);
        assert(padded@.subrange(0, n as int + 1) =~= padded@);
        let sv = slot_value(padded@, n as nat) as int;
        let d = val(a_low@) - val(a_high@);
        let lift: int = if borrow > 0 { 1 } else { 0 };
        assert(sv == d + lift * (big + 1));
        assert(0 <= sv <= big);
        let q: int = val(a_high@) - lift;
        assert(sv - val(a@) == (0 - q) * (big + 1)) by (nonlinear_arith)
            requires
                sv == d + lift * (big + 1),
                d == val(a_low@) - val(a_high@),
                val(a@) == val(a_low@) + big * val(a_high@),
                q == val(a_high@) - lift,
        ;
        lemma_mod_multiples_basic(0 - q, big + 1);
    }
}

/// Writes the residue of `a` (at most `2n` limbs) modulo `B^n - 1` into `n`
/// limbs: the low half plus the high half, with the carry folded around.
pub(crate) fn mersenne_reduce(folded: &mut [Limb], a: &[Limb], n: usize)
    requires
        n >= 1,
        old(folded)@.len() == n,
        a@.len() <= 2 * n,
    ensures
        final(folded)@.len() == n,
        (val(final(folded)@) - val(a@)) % mersenne_modulus(n as nat) == 0,
{
    let ghost big = pow_b(n as nat) as int;
    proof {
        lemma_pow_b_even(n as nat);
    }
    Addition::fill_zero(folded);
    let copy = if a.len() < n {
        a.len()
    } else {
        n
    };
    let a_low = &a[0..copy];
    Addition::copy_prefix(folded, a_low);
    let ghost f0 = folded@;
    proof {
        lemma_val_split(a@, copy as int);
        assert(a@.subrange(0, copy as int) =~= a_low@);
        crate::limbs::lemma_val_concat(a_low@, f0.subrange(copy as int, n as int));
        assert(f0 =~= a_low@ + f0.subrange(copy as int, n as int));
        lemma_val_zero(f0.subrange(copy as int, n as int));
        lemma_mul_basics(pow_b(copy as nat) as int);
        assert(val(f0) == val(a_low@));
    }
    if a.len() <= n {
        proof {
            assert(a@.subrange(copy as int, a@.len() as int) =~= Seq::<Limb>::empty());
            assert(val(a@) == val(a_low@));
            lemma_mod_multiples_basic(0, big - 1);
        }
        return;
    }
    let a_high = &a[n..a.len()];
    proof {
        assert(a@.subrange(n as int, a@.len() as int) =~= a_high@);
    }
    let carry = SsaCarry::add_full_in_place(folded, a_high);
    let ghost f1 = val(folded@) as int;
    let wraps = wrap_carry(folded, carry);
    proof {
        let q = 0 - val(a_high@) - wraps@;
        assert(val(folded@) - val(a@) == q * (big - 1)) by (nonlinear_arith)
            requires
                val(folded@) + wraps@ * (big - 1) == f1 + carry * big,
                f1 + carry * big == val(a_low@) + val(a_high@),
                val(a@) == val(a_low@) + big * val(a_high@),
                q == 0 - val(a_high@) - wraps@,
        ;
        lemma_mod_multiples_basic(q, big - 1);
    }
}

/// The exact product through one CRT split at half-width `n`: the
/// `B^n + 1` residue by the ring product, the `B^n - 1` residue by the
/// recursive split, and the exact reconstruction.
pub(crate) fn crt_exact_product(
    dst: &mut [Limb],
    a: &[Limb],
    b: &[Limb],
    n: usize,
    scratch: &mut [Limb],
)
    requires
        n >= 1,
        halvable(n as nat),
        n * 64 <= usize::MAX,
        a@.len() <= 2 * n,
        b@.len() <= 2 * n,
        val(a@) * val(b@) < pow_b(2 * n as nat) - 1,
        spec_mul_mod_bnm1_scratch_len(n as nat) < usize::MAX,
        old(scratch)@.len() >= (2 * n + 1) + 4 * n + 2,
        old(scratch)@.len() >= (2 * n + 1) + 2 * n + spec_mul_mod_bnm1_scratch_len(n as nat),
    ensures
        final(dst)@.len() == old(dst)@.len(),
        final(scratch)@.len() == old(scratch)@.len(),
        val(final(dst)@) == (val(a@) * val(b@)) as int % (pow_b(old(dst)@.len() as nat) as int),
{
    let ghost big = pow_b(n as nat) as int;
    let ghost ab = (val(a@) * val(b@)) as int;
    proof {
        lemma_pow_b_even(n as nat);
    }
    let (xp, rest1) = scratch.split_at_mut(n + 1);
    let (xm, rest2) = rest1.split_at_mut(n);
    {
        let (left_padded, rest3) = rest2.split_at_mut(n + 1);
        let (right_padded, ring_scratch) = rest3.split_at_mut(n + 1);
        fermat_reduce(left_padded, a, n);
        fermat_reduce(right_padded, b, n);
        proof {
            assert((n * 64) / 64 == n);
        }
        SsaTransform::fft_mul_mod_slices(xp, left_padded, right_padded, n * 64, None, false, None, ring_scratch);
        proof {
            let sl = slot_value(left_padded@, n as nat) as int;
            let sr = slot_value(right_padded@, n as nat) as int;
            lemma_mod_equivalence(slot_value(xp@, n as nat) as int, sl * sr, big + 1);
            lemma_cong_mul(sl, sr, val(a@) as int, val(b@) as int, big + 1);
            lemma_cong_trans(slot_value(xp@, n as nat) as int, sl * sr, ab, big + 1);
        }
    }
    let ghost xp_seq = xp@;
    {
        let (left_folded, rest3) = rest2.split_at_mut(n);
        let (right_folded, xm_scratch) = rest3.split_at_mut(n);
        mersenne_reduce(left_folded, a, n);
        mersenne_reduce(right_folded, b, n);
        SsaCrt::mul_mod_bnm1(xm, left_folded, right_folded, xm_scratch);
        proof {
            let fl = val(left_folded@) as int;
            let fr = val(right_folded@) as int;
            lemma_mod_equivalence(val(xm@) as int, fl * fr, big - 1);
            lemma_cong_mul(fl, fr, val(a@) as int, val(b@) as int, big - 1);
            lemma_cong_trans(val(xm@) as int, fl * fr, ab, big - 1);
        }
    }
    let ghost xm_seq = xm@;
    proof {
        crate::limbs::lemma_pow_b_add(n as nat, n as nat);
        assert(2 * n == n + n);
        assert(ab >= 0) by (nonlinear_arith)
            requires
                ab == val(a@) * val(b@),
        ;
        assert(crt_reconstructs(ab, xp_seq, xm_seq, n as nat)) by {
            lemma_neg_cong(slot_value(xp_seq, n as nat) as int, ab, big + 1);
            lemma_neg_cong(val(xm_seq) as int, ab, big - 1);
        }
    }
    SsaCrt::merge_exact_product(dst, xp, xm);
}

/// The exact square through one CRT split at half-width `n`.
pub(crate) fn crt_exact_square(dst: &mut [Limb], a: &[Limb], n: usize, scratch: &mut [Limb])
    requires
        n >= 1,
        halvable(n as nat),
        n * 64 <= usize::MAX,
        a@.len() <= 2 * n,
        val(a@) * val(a@) < pow_b(2 * n as nat) - 1,
        spec_sqr_mod_bnm1_scratch_len(n as nat) < usize::MAX,
        old(scratch)@.len() >= (2 * n + 1) + 3 * n + 1,
        old(scratch)@.len() >= (2 * n + 1) + n + spec_sqr_mod_bnm1_scratch_len(n as nat),
    ensures
        final(dst)@.len() == old(dst)@.len(),
        final(scratch)@.len() == old(scratch)@.len(),
        val(final(dst)@) == (val(a@) * val(a@)) as int % (pow_b(old(dst)@.len() as nat) as int),
{
    let ghost big = pow_b(n as nat) as int;
    let ghost aa = (val(a@) * val(a@)) as int;
    proof {
        lemma_pow_b_even(n as nat);
    }
    let (xp, rest1) = scratch.split_at_mut(n + 1);
    let (xm, rest2) = rest1.split_at_mut(n);
    {
        let (padded, ring_scratch) = rest2.split_at_mut(n + 1);
        fermat_reduce(padded, a, n);
        proof {
            assert((n * 64) / 64 == n);
        }
        SsaTransform::fft_sqr_mod_slices(xp, padded, n * 64, false, None, ring_scratch);
        proof {
            let sl = slot_value(padded@, n as nat) as int;
            lemma_mod_equivalence(slot_value(xp@, n as nat) as int, sl * sl, big + 1);
            lemma_cong_mul(sl, sl, val(a@) as int, val(a@) as int, big + 1);
            lemma_cong_trans(slot_value(xp@, n as nat) as int, sl * sl, aa, big + 1);
        }
    }
    let ghost xp_seq = xp@;
    {
        let (folded, xm_scratch) = rest2.split_at_mut(n);
        mersenne_reduce(folded, a, n);
        SsaCrt::sqr_mod_bnm1(xm, folded, xm_scratch);
        proof {
            let f = val(folded@) as int;
            lemma_mod_equivalence(val(xm@) as int, f * f, big - 1);
            lemma_cong_mul(f, f, val(a@) as int, val(a@) as int, big - 1);
            lemma_cong_trans(val(xm@) as int, f * f, aa, big - 1);
        }
    }
    let ghost xm_seq = xm@;
    proof {
        crate::limbs::lemma_pow_b_add(n as nat, n as nat);
        assert(2 * n == n + n);
        assert(aa >= 0) by (nonlinear_arith)
            requires
                aa == val(a@) * val(a@),
        ;
        assert(crt_reconstructs(aa, xp_seq, xm_seq, n as nat)) by {
            lemma_neg_cong(slot_value(xp_seq, n as nat) as int, aa, big + 1);
            lemma_neg_cong(val(xm_seq) as int, aa, big - 1);
        }
    }
    SsaCrt::merge_exact_product(dst, xp, xm);
}

/// Adds one limb into `dst`, returning the carry out of the top.
pub(crate) fn add_limb(dst: &mut [Limb], c: Limb) -> (carry: Limb)
    requires
        old(dst)@.len() >= 1,
    ensures
        final(dst)@.len() == old(dst)@.len(),
        carry <= 1,
        val(final(dst)@) + carry * pow_b(old(dst)@.len()) == val(old(dst)@) + c,
{
    let one: [Limb; 1] = [c];
    proof {
        assert(one@ =~= seq![c]);
        lemma_val_single(c);
    }
    SsaCarry::add_full_in_place(dst, &one)
}

/// Subtracts one limb from `dst`, returning the borrow out of the top.
pub(crate) fn sub_limb(dst: &mut [Limb], c: Limb) -> (borrow: Limb)
    requires
        old(dst)@.len() >= 1,
    ensures
        final(dst)@.len() == old(dst)@.len(),
        borrow <= 1,
        val(final(dst)@) - borrow * pow_b(old(dst)@.len()) == val(old(dst)@) - c,
{
    let one: [Limb; 1] = [c];
    proof {
        assert(one@ =~= seq![c]);
        lemma_val_single(c);
    }
    SsaCarry::sub_full_in_place(dst, &one)
}

/// Folds `x = val + carry * B^n` back below `B^n` modulo `B^n - 1`: the
/// result differs from `x` by a multiple of `B^n - 1`.
fn wrap_carry(dst: &mut [Limb], carry: Limb) -> (wraps: Ghost<int>)
    requires
        old(dst)@.len() >= 1,
        carry <= 2,
    ensures
        final(dst)@.len() == old(dst)@.len(),
        0 <= wraps@ <= 3,
        val(final(dst)@) + wraps@ * (pow_b(old(dst)@.len()) - 1) == val(old(dst)@) + carry
            * pow_b(old(dst)@.len()),
{
    let ghost d0 = dst@;
    let ghost n = d0.len();
    let ghost big = pow_b(n as nat) as int;
    proof {
        crate::limbs::lemma_pow_b_monotone(1, n as nat);
        crate::limbs::lemma_pow_b_one();
        lemma_val_bound(d0);
    }
    if carry == 0 {
        return Ghost(0);
    }
    let c2 = add_limb(dst, carry);
    let ghost d1 = dst@;
    if c2 == 0 {
        proof {
            assert(val(d1) + carry * (big - 1) == val(d0) + carry * big) by (nonlinear_arith)
                requires
                    val(d1) + c2 * big == val(d0) + carry,
                    c2 == 0,
            ;
        }
        return Ghost(carry as int);
    }
    let c3 = add_limb(dst, c2);
    proof {
        lemma_val_bound(dst@);
        assert(val(d1) + big == val(d0) + carry) by (nonlinear_arith)
            requires
                val(d1) + c2 * big == val(d0) + carry,
                c2 == 1,
        ;
        assert(c3 == 0) by (nonlinear_arith)
            requires
                val(dst@) + c3 * big == val(d1) + 1,
                val(d1) + big == val(d0) + carry,
                val(d0) < big,
                carry <= 2,
                big >= 4,
                c3 <= 1,
        ;
        assert(val(dst@) + (carry + 1) * (big - 1) == val(d0) + carry * big) by (nonlinear_arith)
            requires
                val(d1) + big == val(d0) + carry,
                val(dst@) + c3 * big == val(d1) + 1,
                c3 == 0,
        ;
    }
    Ghost((carry + 1) as int)
}

/// Turns `k` (of `h` limbs) into `(k - xp) / 2` modulo `B^h - 1`, where `xp`
/// is a semi-normalized slot of `h + 1` limbs; `j` names the multiple of
/// `B^h - 1` the modular arithmetic added.
fn halve_difference(k: &mut [Limb], xp: &[Limb], h: usize) -> (j: Ghost<int>)
    requires
        h > 0,
        old(k)@.len() == h,
        xp@.len() == h + 1,
        xp@[h as int] <= 1,
    ensures
        final(k)@.len() == h,
        2 * val(final(k)@) == val(old(k)@) - slot_value(xp@, h as nat) + j@ * (pow_b(h as nat)
            - 1),
{
    let ghost m0 = val(k@) as int;
    let ghost big = pow_b(h as nat) as int;
    let ghost xl = val(xp@.subrange(0, h as int)) as int;
    let ghost g = xp@[h as int] as int;
    proof {
        crate::limbs::lemma_pow_b_monotone(1, h as nat);
        crate::limbs::lemma_pow_b_one();
        lemma_val_prefix_step(xp@, h as int);
        assert(xp@.subrange(0, h + 1) =~= xp@.subrange(0, h as int + 1));
    }
    let xp_low = &xp[0..h];
    let b1 = Addition::sub_slice_in_place(k, xp_low);
    proof {
        assert(k@.subrange(0, h as int) =~= k@);
        assert(old(k)@.subrange(0, h as int) =~= old(k)@);
    }
    let ghost k1 = val(k@) as int;
    let beta = b1 + xp[h];
    let b2 = sub_limb(k, beta);
    let ghost k2 = val(k@) as int;
    if b2 > 0 {
        let b3 = sub_limb(k, b2);
        proof {
            lemma_val_bound(k@);
            assert(b3 == 0) by (nonlinear_arith)
                requires
                    val(k@) - b3 * big == k2 - b2,
                    k2 - b2 * big == k1 - beta,
                    b2 == 1,
                    k1 >= 0,
                    beta <= 2,
                    val(k@) < big,
                    big >= 4,
                    b3 <= 1,
            ;
        }
    }
    let ghost k3 = val(k@) as int;
    proof {
        assert(k3 == m0 - (xl + g * big) + (b1 + b2 + g) * (big - 1)) by (nonlinear_arith)
            requires
                k1 - b1 * big == m0 - xl,
                k2 - b2 * big == k1 - (b1 + g),
                k3 - 0 * big == k2 - b2 || (b2 == 0 && k3 == k2),
        ;
    }
    let ghost par = (k@[0] % 2) as int;
    proof {
        assert(k@.subrange(0, h as int) =~= k@);
    }
    SsaCrt::halve_mod_bnm1(k, h);
    proof {
        assert(k@.subrange(0, h as int) =~= k@);
        assert(slot_value(xp@, h as nat) == xl + g * big);
        assert(2 * val(k@) == m0 - (xl + g * big) + (b1 + b2 + g + par) * (big - 1))
            by (nonlinear_arith)
            requires
                2 * val(k@) == k3 + par * (big - 1),
                k3 == m0 - (xl + g * big) + (b1 + b2 + g) * (big - 1),
        ;
    }
    Ghost(b1 + b2 + g + par)
}

/// Reconstructs from the residue `xp` modulo `B^h + 1` (a semi-normalized
/// slot of `h + 1` limbs) and the residue `xm` modulo `B^h - 1` a value of
/// `2h` limbs congruent to both: `xp + k * (B^h + 1)` with
/// `k = (xm - xp) / 2 mod (B^h - 1)`, folded modulo `B^{2h} - 1`.
///
/// `xm` is dead afterwards: it is turned into `k` in place.
fn merge_crt_halves(dst: &mut [Limb], xp: &[Limb], xm: &mut [Limb], h: usize, n: usize)
    requires
        h > 0,
        n == 2 * h,
        old(dst)@.len() == n,
        old(xm)@.len() == h,
        xp@.len() == h + 1,
        xp@[h as int] <= 1,
    ensures
        final(dst)@.len() == n,
        final(xm)@.len() == h,
        (val(final(dst)@) - slot_value(xp@, h as nat)) % (pow_b(h as nat) + 1) as int == 0,
        (val(final(dst)@) - val(old(xm)@)) % (pow_b(h as nat) - 1) as int == 0,
{
    let ghost m0 = val(xm@) as int;
    let ghost big = pow_b(h as nat) as int;
    let ghost xl = val(xp@.subrange(0, h as int)) as int;
    let ghost g = xp@[h as int] as int;
    proof {
        crate::limbs::lemma_pow_b_monotone(1, h as nat);
        crate::limbs::lemma_pow_b_one();
        lemma_val_prefix_step(xp@, h as int);
        assert(xp@.subrange(0, h + 1) =~= xp@.subrange(0, h as int + 1));
    }
    let k = xm;
    let j = halve_difference(k, xp, h);
    let xp_low = &xp[0..h];
    let ghost kh = val(k@) as int;
    let c1 = Addition::add_limbs_3(dst, xp_low, k);
    let ghost d_lo = dst@.subrange(0, h as int);
    let carry_guard = c1 + xp[h];
    let c2;
    let ghost hi_final: Seq<Limb>;
    {
        let (lo, hi) = dst.split_at_mut(h);
        Addition::copy_prefix(hi, k);
        proof {
            assert(hi@ =~= k@);
        }
        c2 = add_limb(hi, carry_guard);
        proof {
            assert(lo@ =~= d_lo);
            hi_final = hi@;
        }
    }
    let ghost d1 = dst@;
    proof {
        assert(d1.subrange(h as int, n as int) =~= hi_final);
        lemma_val_split(d1, h as int);
        assert(d1.subrange(0, h as int) =~= d_lo);
        crate::limbs::lemma_pow_b_add(h as nat, h as nat);
        assert(val(d1) + c2 * (big * big) == (xl + g * big) + kh * (big + 1)) by (nonlinear_arith)
            requires
                val(d_lo) + c1 * big == xl + kh,
                val(d1.subrange(h as int, n as int)) + c2 * big == kh + c1 + g,
                val(d1) == val(d_lo) + big * val(d1.subrange(h as int, n as int)),
        ;
    }
    let wraps = wrap_carry(dst, c2);
    proof {
        let nn = big * big;
        let xpv = xl + g * big;
        let w = wraps@;
        let fin = val(dst@) as int;
        assert(pow_b(n as nat) == nn);
        assert(fin - xpv == (big + 1) * (kh - w * (big - 1))) by (nonlinear_arith)
            requires
                fin + w * (nn - 1) == val(d1) + c2 * nn,
                val(d1) + c2 * nn == xpv + kh * (big + 1),
                nn == big * big,
        ;
        assert(fin - m0 == (big - 1) * (kh + j@ - w * (big + 1))) by (nonlinear_arith)
            requires
                fin + w * (nn - 1) == val(d1) + c2 * nn,
                val(d1) + c2 * nn == xpv + kh * (big + 1),
                nn == big * big,
                2 * kh == m0 - xpv + j@ * (big - 1),
        ;
        lemma_mod_multiples_basic(kh - w * (big - 1), big + 1);
        lemma_mod_multiples_basic(kh + j@ - w * (big + 1), big - 1);
        lemma_mul_is_commutative(big + 1, kh - w * (big - 1));
        lemma_mul_is_commutative(big - 1, kh + j@ - w * (big + 1));
    }
}

/// Whether every limb of `s` is `B - 1`.
fn is_all_max(s: &[Limb]) -> (r: bool)
    ensures
        r == all_max(s@),
{
    let mut i: usize = 0;
    while i < s.len()
        invariant
            0 <= i <= s@.len(),
            forall|j: int| 0 <= j < i ==> s@[j] == u64::MAX,
        decreases s@.len() - i,
    {
        if s[i] != u64::MAX {
            return false;
        }
        i = i + 1;
    }
    true
}

/// A value written as `v + m * q` with `0 <= v < m` leaves remainder `v`.
proof fn lemma_low_part(x: int, v: int, m: int, q: int)
    requires
        m > 0,
        0 <= v < m,
        x == v + m * q,
    ensures
        x % m == v,
{
    lemma_mul_is_commutative(m, q);
    lemma_fundamental_div_mod_converse(x, m, q, v);
}

/// Two values below `m` that agree modulo `m` are equal.
proof fn lemma_unique_below(x: int, y: int, m: int)
    requires
        m > 0,
        0 <= x < m,
        0 <= y < m,
        (x - y) % m == 0,
    ensures
        x == y,
{
    lemma_fundamental_div_mod(x - y, m);
    let q = (x - y) / m;
    assert(q == 0) by (nonlinear_arith)
        requires
            x - y == m * q,
            -m < x - y < m,
            m > 0,
    ;
}

/// The exact value the two top-level residues determine: the unique `x`
/// below `B^{2n} - 1` congruent to the Fermat residue modulo `B^n + 1` and to
/// the Mersenne residue modulo `B^n - 1`.
pub open spec fn crt_reconstructs(x: int, xp: Seq<Limb>, xm: Seq<Limb>, n: nat) -> bool {
    &&& 0 <= x < pow_b(2 * n) - 1
    &&& (x - slot_value(xp, n)) % (pow_b(n) + 1) as int == 0
    &&& (x - val(xm)) % mersenne_modulus(n) == 0
}

/// Halving one limb with an incoming top bit.
proof fn lemma_halve_limb(x: u64, c: u64)
    requires
        c <= 1,
    ensures
        ((x >> 1u64) | (c << 63u64)) == x / 2 + c * 0x8000_0000_0000_0000u64,
        (x & 1) == x % 2,
{
    assert(((x >> 1u64) | (c << 63u64)) == x / 2 + c * 0x8000_0000_0000_0000u64) by (bit_vector)
        requires
            c <= 1,
    ;
    assert((x & 1) == x % 2) by (bit_vector);
}

/// One step of the halving recurrence: the written prefix is half the read
/// prefix, corrected by the bit carried in from above.
proof fn lemma_halve_step(v_new: int, v_old: int, x: int, y: int, c: int, low: int, p: int)
    requires
        2 * v_new == v_old - low + (x % 2) * p,
        y == x / 2 + c * 0x8000_0000_0000_0000,
        x >= 0,
    ensures
        2 * (v_new + y * p) == (v_old + x * p) - low + c * (radix() * p),
{
    assert(x == 2 * (x / 2) + x % 2);
    assert(2 * (y * p) == (2 * y) * p) by (nonlinear_arith);
    assert(2 * y == x - x % 2 + c * radix());
    assert((x - x % 2 + c * radix()) * p == x * p - (x % 2) * p + c * (radix() * p))
        by (nonlinear_arith);
}

/// Scratch required by one `sqr_mod_bnm1` call on an `n`-limb operand.
fn sqr_mod_bnm1_scratch_len(n: usize) -> (len: usize)
    ensures
        len == spec_sqr_mod_bnm1_scratch_len(n as nat),
    decreases n, 0nat,
{
    if n <= SSA_BNM1_BASECASE_LIMBS {
        return sat_add(n * 2, Multiplication::required_sqr_scratch(n));
    }
    let h = n / 2;
    let ring_bits = match h.checked_mul(64) {
        Some(bits) => bits,
        None => {
            return usize::MAX;
        },
    };
    SsaCrt::sqr_layout_len(h, FftPlan::new(ring_bits).required_sqr_scratch())
}

} // verus!
