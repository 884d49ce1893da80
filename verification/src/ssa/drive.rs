//! The transform multiplication modulo `2^N + 1`: split both operands into
//! twisted chunks, transform them, multiply frequency by frequency, transform
//! back and rebuild the product.

use crate::limbs::{Limb, lemma_pow_b_pos, pow_b, val};
use crate::num::{ceil_div, two_pow};
use crate::ssa::coefficients::{active_chunks, chunk_value, twiddle_exponent, upper_half_exponent, SsaCoefficients};
use crate::ssa::butterfly::lemma_dif_halves;
use crate::ssa::dft::{lemma_power_sum_congruent, lemma_two_pow_congruent};
use crate::ssa::pipeline::lemma_reduced_twist;
use crate::ssa::twist::lemma_half_power_add;
use crate::ssa::entry::{lemma_two_pow_add, lemma_two_pow_limbs};
use crate::num::lemma_two_pow_monotone;
use crate::limbs::{all_zero, lemma_val_split, lemma_val_zero};
use crate::ssa::dft::{bit_reverse, is_power_of_two, power_sum, reversed_sum};
use crate::ssa::butterfly::slot_values;
use crate::ssa::pipeline::{chunk_seq, lemma_reconstructed_product, lemma_transform_product};
use crate::ssa::plan::FftPlan;
use crate::kernels::Addition;
use crate::ssa::pointwise::{SsaPointwise, lemma_slot_offsets, slot_at, spec_fermat_basecase_scratch_len};
use crate::ssa::reconstruct::{accumulator_limbs, spec_reconstruct_scratch_len};
use crate::ssa::ring::{
    SsaRing, canonical, fermat_modulus, lemma_canonical_shape, lemma_slot_split, residue, same_tail, semi_normalized,
    slot_value, valid_mod_bits,
};
use crate::limbs::lemma_val_bound;
use crate::ssa::transform::{SsaTransform, lemma_shift_for_inverts, spec_shift_for};
use crate::ssa::tuning::SSA_BASE_MODULUS_BITS;
use crate::ssa::twist::{half_power, lemma_half_bit_residue, negacyclic_sum};
use vstd::arithmetic::div_mod::*;
use vstd::arithmetic::mul::*;
use vstd::prelude::*;

verus! {

/// The geometry conditions under which a plan's transform computes the
/// product: `K = 2^log` chunks of `cb` bits cover the `N` bits exactly, the
/// inner ring is wide enough for a signed coefficient, the twist step makes
/// `theta^K = -1`, the root is `theta^2`, and the reconstruction's
/// accumulator holds the biased sum within two outer coefficients.
pub open spec fn transform_geometry(p: FftPlan, n: nat) -> bool {
    let k = p.transform_len as nat;
    let l = p.transform_log as nat;
    let cb = p.chunk_bits as nat;
    let inner = p.inner_bits as nat;
    let s = p.twist_step_half as nat;
    &&& n * 8 <= usize::MAX
    &&& k >= 2
    &&& is_power_of_two(k)
    &&& k == two_pow(l)
    &&& cb >= 1
    &&& cb * k == n
    &&& inner % 64 == 0
    &&& inner >= 64
    &&& inner * 8 <= usize::MAX
    &&& 2 * cb + l + 1 <= inner
    &&& s * k == 2 * inner
    &&& p.omega_shift == p.twist_step_half
    &&& accumulator_limbs(k, cb, inner, n) <= 2 * (n / 64)
    &&& n + cb + l + 2 <= 64 * accumulator_limbs(k, cb, inner, n)
}

/// Limbs of scratch the transform product stages: two matrices, a two-slot
/// twiddle arena, the pointwise arena and the reconstruction arena.
pub open spec fn transform_mul_layout(p: FftPlan, n: nat) -> nat {
    let cl = p.inner_bits as nat / 64 + 1;
    let mat = p.transform_len as nat * cl;
    2 * mat + 2 * cl + (cl + spec_fermat_basecase_scratch_len(p.inner_bits as nat)) + spec_reconstruct_scratch_len(
        p.transform_len as nat,
        p.chunk_bits as nat,
        p.inner_bits as nat,
        n,
    )
}

/// `2^log` as a word, when it fits.
fn power_of_two(log: usize) -> (p: Option<usize>)
    ensures
        p matches Some(v) ==> v == two_pow(log as nat) && is_power_of_two(v as nat),
{
    let mut p: usize = 1;
    let mut i: usize = 0;
    while i < log
        invariant
            i <= log,
            p == two_pow(i as nat),
            is_power_of_two(p as nat),
        decreases log - i,
    {
        if p > usize::MAX / 2 {
            return None;
        }
        proof {
            assert(is_power_of_two((2 * p) as nat));
        }
        p = p * 2;
        i = i + 1;
    }
    Some(p)
}

/// The value an operand of `fft_mul_mod_slices` stands for: the slot of a
/// guarded operand, the limbs of a short one.
pub open spec fn operand_value(s: Seq<Limb>, ml: nat) -> nat {
    if s.len() >= ml + 1 {
        slot_value(s, ml)
    } else {
        val(s)
    }
}

/// A short operand copied into a zeroed guarded slot keeps its value and is
/// canonical.
proof fn lemma_padded_value(src: Seq<Limb>, padded: Seq<Limb>, ml: nat)
    requires
        src.len() <= ml,
        padded.len() == ml + 1,
        forall|j: int| 0 <= j < src.len() ==> padded[j] == src[j],
        forall|j: int| src.len() <= j < padded.len() ==> padded[j] == 0,
    ensures
        val(padded) == val(src),
        slot_value(padded, ml) == val(src),
        canonical(padded, ml),
{
    let zeros = Seq::new((ml + 1 - src.len()) as nat, |i: int| 0 as Limb);
    assert(padded =~= src + zeros);
    crate::limbs::lemma_val_concat(src, zeros);
    assert(all_zero(zeros));
    lemma_val_zero(zeros);
    lemma_mul_basics(pow_b(src.len()) as int);
    assert(padded.subrange(0, ml + 1int) =~= padded);
    lemma_val_bound(src);
    crate::limbs::lemma_pow_b_monotone(src.len() as nat, ml);
}

/// Operands below `2^lb` and `2^rb` with `lb + rb` at most the ring width
/// and the destination's width have a product below both `2^N` and `B^d`.
proof fn lemma_exact_product_fits(l: nat, r: nat, lb: nat, rb: nat, ml: nat, d: nat)
    requires
        l < two_pow(lb),
        r < two_pow(rb),
        lb + rb <= 64 * ml,
        lb + rb <= 64 * d,
    ensures
        l * r < pow_b(ml),
        l * r < pow_b(d),
{
    lemma_two_pow_add(lb, rb);
    crate::num::lemma_two_pow_pos(lb);
    crate::num::lemma_two_pow_pos(rb);
    assert(l * r < two_pow(lb) * two_pow(rb)) by (nonlinear_arith)
        requires
            l < two_pow(lb),
            r < two_pow(rb),
    ;
    lemma_two_pow_monotone(lb + rb, 64 * ml);
    lemma_two_pow_monotone(lb + rb, 64 * d);
    lemma_two_pow_limbs(ml);
    lemma_two_pow_limbs(d);
}

/// A canonical slot whose residue is a value below `B^d <= B^ml` holds that
/// value in its first `d` limbs.
proof fn lemma_canonical_exact(full: Seq<Limb>, ml: nat, p: nat, d: nat)
    requires
        full.len() == ml + 1,
        d <= ml,
        canonical(full, ml),
        residue(full, ml) == (p as int) % (fermat_modulus(ml) as int),
        p < pow_b(ml),
        p < pow_b(d),
    ensures
        val(full.subrange(0, d as int)) == p,
{
    lemma_pow_b_pos(ml);
    lemma_small_mod(p, fermat_modulus(ml));
    lemma_small_mod(slot_value(full, ml), fermat_modulus(ml));
    assert(full.subrange(0, ml + 1int) =~= full);
    lemma_val_split(full, d as int);
    let lo = val(full.subrange(0, d as int));
    let hi = val(full.subrange(d as int, full.len() as int));
    lemma_val_bound(full.subrange(0, d as int));
    lemma_pow_b_pos(d);
    assert(hi == 0) by (nonlinear_arith)
        requires
            p == lo + pow_b(d) * hi,
            lo >= 0,
            hi >= 0,
            p < pow_b(d),
            pow_b(d) >= 1,
    ;
    lemma_mul_basics(pow_b(d) as int);
}

impl SsaTransform {
    /// Whether `plan`'s geometry meets [`transform_geometry`] for a ring of
    /// `modulus_bits`.
    pub fn transform_geometry_ok(plan: &FftPlan, modulus_bits: usize) -> (ok: bool)
        ensures
            ok ==> transform_geometry(*plan, modulus_bits as nat),
    {
        let k = plan.transform_len;
        let cb = plan.chunk_bits;
        let inner = plan.inner_bits;
        let s = plan.twist_step_half;
        let log = plan.transform_log;
        if modulus_bits > usize::MAX / 8 || k < 2 || cb == 0 || inner < 64 || inner % 64 != 0 || inner > usize::MAX
            / 8 {
            return false;
        }
        match power_of_two(log) {
            None => {
                return false;
            },
            Some(p) => {
                if p != k {
                    return false;
                }
            },
        }
        match cb.checked_mul(k) {
            None => {
                return false;
            },
            Some(n) => {
                if n != modulus_bits {
                    return false;
                }
            },
        }
        if cb > inner || log > inner || 2 * cb + log + 1 > inner {
            return false;
        }
        match s.checked_mul(k) {
            None => {
                return false;
            },
            Some(sk) => {
                if sk != 2 * inner {
                    return false;
                }
            },
        }
        if plan.omega_shift != s {
            return false;
        }
        proof {
            lemma_mul_inequality((k - 1) as int, k as int, cb as int);
            lemma_mul_is_commutative(k as int, cb as int);
        }
        let contributions = inner / 64 + 1 + ((k - 1) * cb) / 64 + 1;
        let outer_cl = modulus_bits / 64 + 1;
        let acc = if contributions >= outer_cl {
            contributions
        } else {
            outer_cl
        };
        if acc > 2 * (modulus_bits / 64) {
            return false;
        }
        if modulus_bits + cb + log + 2 > 64 * acc {
            return false;
        }
        proof {
            assert(acc == accumulator_limbs(k as nat, cb as nat, inner as nat, modulus_bits as nat));
        }
        true
    }
}

impl SsaTransform {
    /// Limbs of scratch the transform product stages for this plan, when
    /// the count fits a word.
    pub fn transform_mul_layout_len(plan: &FftPlan, modulus_bits: usize) -> (len: Option<usize>)
        requires
            transform_geometry(*plan, modulus_bits as nat),
            modulus_bits % 64 == 0,
        ensures
            len matches Some(v) ==> v == transform_mul_layout(*plan, modulus_bits as nat),
    {
        let k = plan.transform_len;
        let cb = plan.chunk_bits;
        let inner = plan.inner_bits;
        let cl = inner / 64 + 1;
        let ml = modulus_bits / 64;
        let mat = k.checked_mul(cl)?;
        let pw = SsaPointwise::fermat_basecase_scratch_len(inner).checked_add(cl)?;
        proof {
            lemma_mul_inequality((k - 1) as int, k as int, cb as int);
            lemma_mul_is_commutative(k as int, cb as int);
        }
        let contributions = cl + ((k - 1) * cb) / 64 + 1;
        let acc = if contributions >= ml + 1 {
            contributions
        } else {
            ml + 1
        };
        let coefficient = inner / 64 + 2;
        let fold = acc - ml;
        let recon = acc + if coefficient >= fold {
            coefficient
        } else {
            fold
        };
        proof {
            assert(acc == accumulator_limbs(k as nat, cb as nat, inner as nat, modulus_bits as nat));
            assert(recon == spec_reconstruct_scratch_len(k as nat, cb as nat, inner as nat, modulus_bits as nat));
        }
        let two_mat = mat.checked_add(mat)?;
        let a = two_mat.checked_add(2 * cl)?;
        let b = a.checked_add(pw)?;
        b.checked_add(recon)
    }

    /// Multiplies two residues modulo `2^modulus_bits + 1`.
    ///
    /// Both operands have one layout: either guarded, at least
    /// `modulus_bits / 64 + 1` limbs whose first `modulus_bits / 64 + 1` hold a
    /// canonical residue, or short, at most `modulus_bits / 64` limbs with
    /// implicit zero limbs and guard above them, staged into a guarded copy.
    /// With at least `modulus_bits / 64 + 1` limbs, `dst` receives the
    /// canonical residue of the product in those limbs. A shorter, guard-free
    /// `dst` takes short operands whose `significant_bits` bound them so that
    /// the exact product fits both the ring and `dst`; it then receives that
    /// product exactly.
    ///
    /// Special residues (zero and `-1`) are answered directly. Rings up to the
    /// basecase width, unless `force_transform`, use the basecase product.
    /// Otherwise the plan (`forced_plan`, or the one the planner selects) runs
    /// the transform: both operands are cut into `K` twisted chunks, run
    /// through the forward transform, multiplied slot by slot, run through
    /// the inverse transform, untwisted and accumulated. Every planned or
    /// forced plan meets [`crate::ssa::plan::planned_geometry`]; the transform
    /// also needs a bit above the coefficient bound to tell signs apart, which
    /// a plan whose inner ring sits exactly at that bound lacks. Such a plan,
    /// any other plan outside [`transform_geometry`], or a `scratch` shorter
    /// than the transform's layout, takes the basecase product instead.
    pub fn fft_mul_mod_slices(
        dst: &mut [Limb],
        left: &[Limb],
        right: &[Limb],
        modulus_bits: usize,
        significant_bits: Option<(usize, usize)>,
        force_transform: bool,
        forced_plan: Option<FftPlan>,
        scratch: &mut [Limb],
    )
        requires
            valid_mod_bits(modulus_bits),
            (left@.len() >= modulus_bits / 64 + 1 && right@.len() >= modulus_bits / 64 + 1 && canonical(
                left@,
                (modulus_bits / 64) as nat,
            ) && canonical(right@, (modulus_bits / 64) as nat)) || (left@.len() <= modulus_bits / 64
                && right@.len() <= modulus_bits / 64),
            old(dst)@.len() >= modulus_bits / 64 + 1 || (left@.len() <= modulus_bits / 64
                && significant_bits is Some && val(left@) < two_pow(significant_bits.unwrap().0 as nat)
                && val(right@) < two_pow(significant_bits.unwrap().1 as nat) && significant_bits.unwrap().0
                + significant_bits.unwrap().1 <= modulus_bits && significant_bits.unwrap().0
                + significant_bits.unwrap().1 <= 64 * old(dst)@.len()),
            old(scratch)@.len() >= 2 * (modulus_bits / 64),
        ensures
            old(dst)@.len() >= modulus_bits / 64 + 1 ==> canonical(final(dst)@, (modulus_bits / 64) as nat),
            old(dst)@.len() >= modulus_bits / 64 + 1 ==> residue(final(dst)@, (modulus_bits / 64) as nat) == ((
            operand_value(left@, (modulus_bits / 64) as nat) * operand_value(right@, (modulus_bits / 64) as nat))
                as int) % (fermat_modulus((modulus_bits / 64) as nat) as int),
            old(dst)@.len() >= modulus_bits / 64 + 1 ==> same_tail(final(dst)@, old(dst)@, modulus_bits / 64 + 1),
            old(dst)@.len() < modulus_bits / 64 + 1 ==> final(dst)@.len() == old(dst)@.len() && val(final(dst)@)
                == val(left@) * val(right@),
            final(scratch)@.len() == old(scratch)@.len(),
    {
        let ml = SsaRing::mod_limbs(modulus_bits);
        if left.len() > ml {
            let l = &left[0..ml + 1];
            let r = &right[0..ml + 1];
            proof {
                assert(l@ =~= left@.subrange(0, ml + 1int));
                assert(r@ =~= right@.subrange(0, ml + 1int));
                assert(l@.subrange(0, ml + 1int) =~= l@);
                assert(r@.subrange(0, ml + 1int) =~= r@);
            }
            Self::mul_guarded(dst, l, r, modulus_bits, force_transform, forced_plan, scratch);
        } else {
            let mut lp: Vec<Limb> = vec![0; ml + 1];
            let mut rp: Vec<Limb> = vec![0; ml + 1];
            let ghost zl = lp@;
            let ghost zr = rp@;
            Addition::copy_prefix(lp.as_mut_slice(), left);
            Addition::copy_prefix(rp.as_mut_slice(), right);
            proof {
                assert forall|j: int| left@.len() <= j < lp@.len() implies lp@[j] == 0 by {
                    assert(lp@[j] == zl[j]);
                }
                assert forall|j: int| right@.len() <= j < rp@.len() implies rp@[j] == 0 by {
                    assert(rp@[j] == zr[j]);
                }
                lemma_padded_value(left@, lp@, ml as nat);
                lemma_padded_value(right@, rp@, ml as nat);
            }
            if dst.len() > ml {
                Self::mul_guarded(dst, lp.as_slice(), rp.as_slice(), modulus_bits, force_transform, forced_plan, scratch);
            } else {
                let mut full: Vec<Limb> = vec![0; ml + 1];
                Self::mul_guarded(
                    full.as_mut_slice(),
                    lp.as_slice(),
                    rp.as_slice(),
                    modulus_bits,
                    force_transform,
                    forced_plan,
                    scratch,
                );
                let dlen = dst.len();
                proof {
                    let bits = significant_bits.unwrap();
                    lemma_exact_product_fits(
                        val(left@),
                        val(right@),
                        bits.0 as nat,
                        bits.1 as nat,
                        ml as nat,
                        dlen as nat,
                    );
                    lemma_canonical_exact(full@, ml as nat, val(left@) * val(right@), dlen as nat);
                }
                Addition::copy_prefix(dst, &full[0..dlen]);
                proof {
                    assert(dst@ =~= full@.subrange(0, dlen as int));
                }
            }
        }
    }

    /// [`Self::fft_mul_mod_slices`] on guarded operands.
    fn mul_guarded(
        dst: &mut [Limb],
        left: &[Limb],
        right: &[Limb],
        modulus_bits: usize,
        force_transform: bool,
        forced_plan: Option<FftPlan>,
        scratch: &mut [Limb],
    )
        requires
            valid_mod_bits(modulus_bits),
            left@.len() == modulus_bits / 64 + 1,
            right@.len() == modulus_bits / 64 + 1,
            canonical(left@, (modulus_bits / 64) as nat),
            canonical(right@, (modulus_bits / 64) as nat),
            old(dst)@.len() >= modulus_bits / 64 + 1,
            old(scratch)@.len() >= 2 * (modulus_bits / 64),
        ensures
            canonical(final(dst)@, (modulus_bits / 64) as nat),
            residue(final(dst)@, (modulus_bits / 64) as nat) == ((slot_value(left@, (modulus_bits / 64) as nat)
                * slot_value(right@, (modulus_bits / 64) as nat)) as int) % (fermat_modulus(
                (modulus_bits / 64) as nat,
            ) as int),
            same_tail(final(dst)@, old(dst)@, modulus_bits / 64 + 1),
            final(scratch)@.len() == old(scratch)@.len(),
    {
        let ml = SsaRing::mod_limbs(modulus_bits);
        if SsaPointwise::write_special_residue_product(dst, left, right, modulus_bits) {
            return;
        }
        if modulus_bits <= SSA_BASE_MODULUS_BITS && !force_transform {
            SsaPointwise::fermat_mul_into(dst, left, right, modulus_bits, scratch);
            return;
        }
        let plan = match forced_plan {
            Some(p) => p,
            None => FftPlan::new(modulus_bits),
        };
        if !Self::transform_geometry_ok(&plan, modulus_bits) {
            SsaPointwise::fermat_mul_into(dst, left, right, modulus_bits, scratch);
            return;
        }
        let layout = match Self::transform_mul_layout_len(&plan, modulus_bits) {
            Some(v) => v,
            None => {
                SsaPointwise::fermat_mul_into(dst, left, right, modulus_bits, scratch);
                return;
            },
        };
        if scratch.len() < layout {
            SsaPointwise::fermat_mul_into(dst, left, right, modulus_bits, scratch);
            return;
        }
        Self::transform_mul(dst, left, right, modulus_bits, &plan, scratch);
    }

    /// The transform path of [`Self::fft_mul_mod_slices`], on a plan whose
    /// geometry holds and a scratch holding its layout.
    #[verifier::rlimit(100)]
    #[verifier::spinoff_prover]
    fn transform_mul(
        dst: &mut [Limb],
        left: &[Limb],
        right: &[Limb],
        modulus_bits: usize,
        plan: &FftPlan,
        scratch: &mut [Limb],
    )
        requires
            valid_mod_bits(modulus_bits),
            modulus_bits <= usize::MAX / 8,
            left@.len() == modulus_bits / 64 + 1,
            right@.len() == modulus_bits / 64 + 1,
            canonical(left@, (modulus_bits / 64) as nat),
            canonical(right@, (modulus_bits / 64) as nat),
            left@[(modulus_bits / 64) as int] == 0,
            right@[(modulus_bits / 64) as int] == 0,
            old(dst)@.len() >= modulus_bits / 64 + 1,
            transform_geometry(*plan, modulus_bits as nat),
            old(scratch)@.len() >= transform_mul_layout(*plan, modulus_bits as nat),
        ensures
            canonical(final(dst)@, (modulus_bits / 64) as nat),
            residue(final(dst)@, (modulus_bits / 64) as nat) == ((slot_value(left@, (modulus_bits / 64) as nat)
                * slot_value(right@, (modulus_bits / 64) as nat)) as int) % (fermat_modulus(
                (modulus_bits / 64) as nat,
            ) as int),
            same_tail(final(dst)@, old(dst)@, modulus_bits / 64 + 1),
            final(scratch)@.len() == old(scratch)@.len(),
    {
        let ml = SsaRing::mod_limbs(modulus_bits);
        let k = plan.transform_len;
        let cb = plan.chunk_bits;
        let inner = plan.inner_bits;
        let s = plan.twist_step_half;
        let log = plan.transform_log;
        let cl = inner / 64 + 1;
        let ghost nl = (inner / 64) as nat;
        let ghost kn = k as nat;
        let ghost f_in = fermat_modulus(nl) as int;
        proof {
            lemma_pow_b_pos(nl);
            // The root has order k and lies below the period.
            assert(k == 2 * (k / 2));
            assert(s * (k / 2) == inner) by (nonlinear_arith)
                requires
                    s * k == 2 * inner,
                    k == 2 * (k / 2),
            ;
            assert(s <= inner) by (nonlinear_arith)
                requires
                    s * k == 2 * inner,
                    k >= 2,
            ;
            lemma_small_mod(inner as nat, (2 * inner) as nat);
            assert(inner == 64 * nl);
        }
        let slen = scratch.len();
        let bc = SsaPointwise::fermat_basecase_scratch_len(inner);
        proof {
            assert(2 * (k * cl) + 2 * cl + (cl + bc) <= slen);
        }
        let mat = k * cl;
        let pw = bc + cl;
        let twist = plan.inverse_twist();
        let ghost lf: Seq<Limb>;
        let ghost rf: Seq<Limb>;
        let ghost lz: Seq<Limb>;
        let ghost lw: Seq<Limb>;
        let ghost lfin: Seq<Limb>;
        {
            let (lm, rest) = scratch.split_at_mut(mat);
            let (rm, rest) = rest.split_at_mut(mat);
            let (tw, rest) = rest.split_at_mut(2 * cl);
            let (ps, rs) = rest.split_at_mut(pw);
            Self::stage_and_run_forward_fft(left, lm, tw, plan, modulus_bits);
            Self::stage_and_run_forward_fft(right, rm, tw, plan, modulus_bits);
            proof {
                lf = lm@;
                rf = rm@;
            }
            SsaPointwise::pointwise_multiply_with_executor(lm, rm, k, inner, ps);
            proof {
                lz = lm@;
                assert forall|i: int| 0 <= i < k implies semi_normalized(
                    #[trigger] slot_at(lz, i, (inner / 64 + 1) as int),
                    nl,
                ) by {
                    lemma_canonical_shape(slot_at(lz, i, (inner / 64 + 1) as int), nl);
                }
            }
            Self::fft_in_place(lm, k, s, inner, true, false, tw);
            proof {
                lw = lm@;
            }
            SsaCoefficients::reconstruct(lm, k, cb, inner, modulus_bits, dst, rs, Some(twist), tw);
            proof {
                lfin = lm@;
            }
        }
        proof {
            let a = chunk_seq(left@, kn, cb as nat);
            let b = chunk_seq(right@, kn, cb as nat);
            let x = twisted_chunks(left@, kn, cb as nat, s as nat, nl);
            let y = twisted_chunks(right@, kn, cb as nat, s as nat, nl);
            let xf = slot_values(lf, kn, cl as nat, nl);
            let yf = slot_values(rf, kn, cl as nat, nl);
            let z = slot_values(lz, kn, cl as nat, nl);
            let w = slot_values(lw, kn, cl as nat, nl);
            let sh = Seq::new(kn, |j: int| spec_shift_for(twist, j as usize) as nat);
            assert forall|i: int| 0 <= i < kn implies #[trigger] x[i] % f_in == (a[i] * half_power(
                ((i as nat) * (s as nat)) % (256 * nl),
                nl,
            )) % f_in by {
                lemma_mul_basics(f_in);
                lemma_mod_mod(a[i] * half_power(((i as nat) * (s as nat)) % (256 * nl), nl), f_in, 1);
            }
            assert forall|i: int| 0 <= i < kn implies #[trigger] y[i] % f_in == (b[i] * half_power(
                ((i as nat) * (s as nat)) % (256 * nl),
                nl,
            )) % f_in by {
                lemma_mul_basics(f_in);
                lemma_mod_mod(b[i] * half_power(((i as nat) * (s as nat)) % (256 * nl), nl), f_in, 1);
            }
            assert forall|p: int| 0 <= p < kn implies #[trigger] xf[p] % f_in == power_sum(
                x,
                (s as nat) * bit_reverse(p as nat, kn),
                kn,
            ) % f_in by {}
            assert forall|p: int| 0 <= p < kn implies #[trigger] yf[p] % f_in == power_sum(
                y,
                (s as nat) * bit_reverse(p as nat, kn),
                kn,
            ) % f_in by {}
            assert forall|p: int| 0 <= p < kn implies #[trigger] z[p] % f_in == (xf[p] * yf[p]) % f_in by {}
            assert forall|j: int| 0 <= j < kn implies #[trigger] w[j] % f_in == reversed_sum(
                z,
                ((128 * nl - s) as nat) * (j as nat),
                kn,
                kn,
            ) % f_in by {}
            assert forall|j: int| 0 <= j < kn implies (#[trigger] sh[j] + (j as nat) * (s as nat) + 2 * (log as nat))
                % (256 * nl) == 0 by {
                let jn = j as nat;
                let sn = s as nat;
                assert(jn * sn <= 2 * inner) by (nonlinear_arith)
                    requires
                        jn < k,
                        sn * k == 2 * inner,
                ;
                lemma_shift_for_inverts(twist, j as usize);
            }
            lemma_transform_product(a, b, x, y, xf, yf, z, w, sh, kn, log as nat, s as nat, s as nat, nl);
            assert forall|j: int|
                #![trigger slot_at(lfin, j, nl + 1int)]
                0 <= j < kn implies {
                &&& canonical(slot_at(lfin, j, nl + 1int), nl)
                &&& slot_at(lfin, j, nl + 1int).len() >= nl + 1
                &&& residue(slot_at(lfin, j, nl + 1int), nl) == negacyclic_sum(a, b, j as nat, kn, kn) % f_in
            } by {
                assert(slot_at(lfin, j, nl + 1int) == slot_at(lfin, j, (inner / 64 + 1) as int));
                lemma_slot_offsets(j, kn as int, (nl + 1) as int);
                lemma_half_bit_residue(w[j] as nat, sh[j], nl);
            }
            lemma_slot_split(left@, ml as nat);
            lemma_slot_split(right@, ml as nat);
            lemma_val_bound(left@.subrange(0, ml as int));
            lemma_val_bound(right@.subrange(0, ml as int));
            lemma_mul_basics(pow_b(ml as nat) as int);
            assert(val(left@) == slot_value(left@, ml as nat));
            assert(val(right@) == slot_value(right@, ml as nat));
            assert(left@.subrange(0, ml + 1int) =~= left@);
            assert(right@.subrange(0, ml + 1int) =~= right@);
            lemma_reconstructed_product(
                left@,
                right@,
                lfin,
                kn,
                log as nat,
                cb as nat,
                nl,
                ml as nat,
                accumulator_limbs(kn, cb as nat, inner as nat, modulus_bits as nat),
            );
        }
        SsaRing::normalize(dst, modulus_bits);
    }
}

/// Limbs of scratch the transform square stages: one matrix, a two-slot
/// twiddle arena, the pointwise square arena and the reconstruction arena.
pub open spec fn transform_sqr_layout(p: FftPlan, n: nat) -> nat {
    let cl = p.inner_bits as nat / 64 + 1;
    p.transform_len as nat * cl + 2 * cl + 2 * (p.inner_bits as nat / 64) + spec_reconstruct_scratch_len(
        p.transform_len as nat,
        p.chunk_bits as nat,
        p.inner_bits as nat,
        n,
    )
}

impl SsaTransform {
    /// Limbs of scratch the transform square stages for this plan, when
    /// the count fits a word.
    pub fn transform_sqr_layout_len(plan: &FftPlan, modulus_bits: usize) -> (len: Option<usize>)
        requires
            transform_geometry(*plan, modulus_bits as nat),
            modulus_bits % 64 == 0,
        ensures
            len matches Some(v) ==> v == transform_sqr_layout(*plan, modulus_bits as nat),
    {
        let k = plan.transform_len;
        let cb = plan.chunk_bits;
        let inner = plan.inner_bits;
        let cl = inner / 64 + 1;
        let ml = modulus_bits / 64;
        let mat = k.checked_mul(cl)?;
        proof {
            lemma_mul_inequality((k - 1) as int, k as int, cb as int);
            lemma_mul_is_commutative(k as int, cb as int);
        }
        let contributions = cl + ((k - 1) * cb) / 64 + 1;
        let acc = if contributions >= ml + 1 {
            contributions
        } else {
            ml + 1
        };
        let coefficient = inner / 64 + 2;
        let fold = acc - ml;
        let recon = acc + if coefficient >= fold {
            coefficient
        } else {
            fold
        };
        proof {
            assert(recon == spec_reconstruct_scratch_len(k as nat, cb as nat, inner as nat, modulus_bits as nat));
        }
        let a = mat.checked_add(2 * cl)?;
        let b = a.checked_add(2 * (inner / 64))?;
        b.checked_add(recon)
    }

    /// Squares a canonical residue modulo `2^modulus_bits + 1`, held in the
    /// first `modulus_bits / 64 + 1` limbs of `a`, into the first
    /// `modulus_bits / 64 + 1` limbs of `dst`, canonically: the square
    /// counterpart of [`Self::fft_mul_mod_slices`], with one split, one
    /// forward transform and pointwise squares.
    pub fn fft_sqr_mod_slices(
        dst: &mut [Limb],
        a: &[Limb],
        modulus_bits: usize,
        force_transform: bool,
        forced_plan: Option<FftPlan>,
        scratch: &mut [Limb],
    )
        requires
            valid_mod_bits(modulus_bits),
            a@.len() >= modulus_bits / 64 + 1,
            canonical(a@, (modulus_bits / 64) as nat),
            old(dst)@.len() >= modulus_bits / 64 + 1,
            old(scratch)@.len() >= 2 * (modulus_bits / 64),
        ensures
            canonical(final(dst)@, (modulus_bits / 64) as nat),
            residue(final(dst)@, (modulus_bits / 64) as nat) == ((slot_value(a@, (modulus_bits / 64) as nat)
                * slot_value(a@, (modulus_bits / 64) as nat)) as int) % (fermat_modulus(
                (modulus_bits / 64) as nat,
            ) as int),
            same_tail(final(dst)@, old(dst)@, modulus_bits / 64 + 1),
            final(scratch)@.len() == old(scratch)@.len(),
    {
        let ml = SsaRing::mod_limbs(modulus_bits);
        let a = &a[0..ml + 1];
        proof {
            assert(a@.subrange(0, ml + 1int) =~= a@);
        }
        Self::sqr_guarded(dst, a, modulus_bits, force_transform, forced_plan, scratch);
    }

    /// [`Self::fft_sqr_mod_slices`] on an operand of exactly one guarded slot.
    fn sqr_guarded(
        dst: &mut [Limb],
        a: &[Limb],
        modulus_bits: usize,
        force_transform: bool,
        forced_plan: Option<FftPlan>,
        scratch: &mut [Limb],
    )
        requires
            valid_mod_bits(modulus_bits),
            a@.len() == modulus_bits / 64 + 1,
            canonical(a@, (modulus_bits / 64) as nat),
            old(dst)@.len() >= modulus_bits / 64 + 1,
            old(scratch)@.len() >= 2 * (modulus_bits / 64),
        ensures
            canonical(final(dst)@, (modulus_bits / 64) as nat),
            residue(final(dst)@, (modulus_bits / 64) as nat) == ((slot_value(a@, (modulus_bits / 64) as nat)
                * slot_value(a@, (modulus_bits / 64) as nat)) as int) % (fermat_modulus(
                (modulus_bits / 64) as nat,
            ) as int),
            same_tail(final(dst)@, old(dst)@, modulus_bits / 64 + 1),
            final(scratch)@.len() == old(scratch)@.len(),
    {
        if SsaPointwise::write_special_residue_product(dst, a, a, modulus_bits) {
            return;
        }
        if modulus_bits <= SSA_BASE_MODULUS_BITS && !force_transform {
            SsaPointwise::fermat_mul_into(dst, a, a, modulus_bits, scratch);
            return;
        }
        let plan = match forced_plan {
            Some(p) => p,
            None => FftPlan::new(modulus_bits),
        };
        if !Self::transform_geometry_ok(&plan, modulus_bits) {
            SsaPointwise::fermat_mul_into(dst, a, a, modulus_bits, scratch);
            return;
        }
        let layout = match Self::transform_sqr_layout_len(&plan, modulus_bits) {
            Some(v) => v,
            None => {
                SsaPointwise::fermat_mul_into(dst, a, a, modulus_bits, scratch);
                return;
            },
        };
        if scratch.len() < layout {
            SsaPointwise::fermat_mul_into(dst, a, a, modulus_bits, scratch);
            return;
        }
        Self::transform_sqr(dst, a, modulus_bits, &plan, scratch);
    }

    /// The transform path of [`Self::fft_sqr_mod_slices`].
    #[verifier::rlimit(100)]
    #[verifier::spinoff_prover]
    fn transform_sqr(dst: &mut [Limb], left: &[Limb], modulus_bits: usize, plan: &FftPlan, scratch: &mut [Limb])
        requires
            valid_mod_bits(modulus_bits),
            left@.len() == modulus_bits / 64 + 1,
            canonical(left@, (modulus_bits / 64) as nat),
            left@[(modulus_bits / 64) as int] == 0,
            old(dst)@.len() >= modulus_bits / 64 + 1,
            transform_geometry(*plan, modulus_bits as nat),
            old(scratch)@.len() >= transform_sqr_layout(*plan, modulus_bits as nat),
        ensures
            canonical(final(dst)@, (modulus_bits / 64) as nat),
            residue(final(dst)@, (modulus_bits / 64) as nat) == ((slot_value(left@, (modulus_bits / 64) as nat)
                * slot_value(left@, (modulus_bits / 64) as nat)) as int) % (fermat_modulus(
                (modulus_bits / 64) as nat,
            ) as int),
            same_tail(final(dst)@, old(dst)@, modulus_bits / 64 + 1),
            final(scratch)@.len() == old(scratch)@.len(),
    {
        let ml = SsaRing::mod_limbs(modulus_bits);
        let k = plan.transform_len;
        let cb = plan.chunk_bits;
        let inner = plan.inner_bits;
        let s = plan.twist_step_half;
        let log = plan.transform_log;
        let cl = inner / 64 + 1;
        let ghost nl = (inner / 64) as nat;
        let ghost kn = k as nat;
        let ghost f_in = fermat_modulus(nl) as int;
        proof {
            lemma_pow_b_pos(nl);
            assert(k == 2 * (k / 2));
            assert(s * (k / 2) == inner) by (nonlinear_arith)
                requires
                    s * k == 2 * inner,
                    k == 2 * (k / 2),
            ;
            assert(s <= inner) by (nonlinear_arith)
                requires
                    s * k == 2 * inner,
                    k >= 2,
            ;
            lemma_small_mod(inner as nat, (2 * inner) as nat);
            assert(inner == 64 * nl);
        }
        let slen = scratch.len();
        proof {
            assert(k * cl + 2 * cl + 2 * (inner / 64) <= slen);
        }
        let mat = k * cl;
        let sq = 2 * (inner / 64);
        let twist = plan.inverse_twist();
        let ghost lf: Seq<Limb>;
        let ghost lz: Seq<Limb>;
        let ghost lw: Seq<Limb>;
        let ghost lfin: Seq<Limb>;
        {
            let (lm, rest) = scratch.split_at_mut(mat);
            let (tw, rest) = rest.split_at_mut(2 * cl);
            let (ps, rs) = rest.split_at_mut(sq);
            Self::stage_and_run_forward_fft(left, lm, tw, plan, modulus_bits);
            proof {
                lf = lm@;
            }
            SsaPointwise::pointwise_square_with_executor(lm, k, inner, ps);
            proof {
                lz = lm@;
                assert forall|i: int| 0 <= i < k implies semi_normalized(
                    #[trigger] slot_at(lz, i, (inner / 64 + 1) as int),
                    nl,
                ) by {
                    lemma_canonical_shape(slot_at(lz, i, (inner / 64 + 1) as int), nl);
                }
            }
            Self::fft_in_place(lm, k, s, inner, true, false, tw);
            proof {
                lw = lm@;
            }
            SsaCoefficients::reconstruct(lm, k, cb, inner, modulus_bits, dst, rs, Some(twist), tw);
            proof {
                lfin = lm@;
            }
        }
        proof {
            let a = chunk_seq(left@, kn, cb as nat);
            let x = twisted_chunks(left@, kn, cb as nat, s as nat, nl);
            let xf = slot_values(lf, kn, cl as nat, nl);
            let z = slot_values(lz, kn, cl as nat, nl);
            let w = slot_values(lw, kn, cl as nat, nl);
            let sh = Seq::new(kn, |j: int| spec_shift_for(twist, j as usize) as nat);
            assert forall|i: int| 0 <= i < kn implies #[trigger] x[i] % f_in == (a[i] * half_power(
                ((i as nat) * (s as nat)) % (256 * nl),
                nl,
            )) % f_in by {
                lemma_mul_basics(f_in);
                lemma_mod_mod(a[i] * half_power(((i as nat) * (s as nat)) % (256 * nl), nl), f_in, 1);
            }
            assert forall|p: int| 0 <= p < kn implies #[trigger] xf[p] % f_in == power_sum(
                x,
                (s as nat) * bit_reverse(p as nat, kn),
                kn,
            ) % f_in by {}
            assert forall|p: int| 0 <= p < kn implies #[trigger] z[p] % f_in == (xf[p] * xf[p]) % f_in by {}
            assert forall|j: int| 0 <= j < kn implies #[trigger] w[j] % f_in == reversed_sum(
                z,
                ((128 * nl - s) as nat) * (j as nat),
                kn,
                kn,
            ) % f_in by {}
            assert forall|j: int| 0 <= j < kn implies (#[trigger] sh[j] + (j as nat) * (s as nat) + 2 * (log as nat))
                % (256 * nl) == 0 by {
                let jn = j as nat;
                let sn = s as nat;
                assert(jn * sn <= 2 * inner) by (nonlinear_arith)
                    requires
                        jn < k,
                        sn * k == 2 * inner,
                ;
                lemma_shift_for_inverts(twist, j as usize);
            }
            lemma_transform_product(a, a, x, x, xf, xf, z, w, sh, kn, log as nat, s as nat, s as nat, nl);
            assert forall|j: int|
                #![trigger slot_at(lfin, j, nl + 1int)]
                0 <= j < kn implies {
                &&& canonical(slot_at(lfin, j, nl + 1int), nl)
                &&& slot_at(lfin, j, nl + 1int).len() >= nl + 1
                &&& residue(slot_at(lfin, j, nl + 1int), nl) == negacyclic_sum(a, a, j as nat, kn, kn) % f_in
            } by {
                assert(slot_at(lfin, j, nl + 1int) == slot_at(lfin, j, (inner / 64 + 1) as int));
                lemma_slot_offsets(j, kn as int, (nl + 1) as int);
                lemma_half_bit_residue(w[j] as nat, sh[j], nl);
            }
            lemma_slot_split(left@, ml as nat);
            lemma_val_bound(left@.subrange(0, ml as int));
            lemma_mul_basics(pow_b(ml as nat) as int);
            assert(left@.subrange(0, ml + 1int) =~= left@);
            assert(val(left@) == slot_value(left@, ml as nat));
            lemma_reconstructed_product(
                left@,
                left@,
                lfin,
                kn,
                log as nat,
                cb as nat,
                nl,
                ml as nat,
                accumulator_limbs(kn, cb as nat, inner as nat, modulus_bits as nat),
            );
        }
        SsaRing::normalize(dst, modulus_bits);
    }
}

/// Canonical slots with one residue hold one value: what
/// `fft_sqr_mod_slices` writes for `a` is what `fft_mul_mod_slices` writes
/// for `a` times `a`, since both leave canonical slots with the residue of
/// the square.
pub proof fn lemma_canonical_residue_unique(x: Seq<Limb>, y: Seq<Limb>, ml: nat)
    requires
        canonical(x, ml),
        canonical(y, ml),
        residue(x, ml) == residue(y, ml),
    ensures
        slot_value(x, ml) == slot_value(y, ml),
{
    lemma_pow_b_pos(ml);
    lemma_small_mod(slot_value(x, ml), fermat_modulus(ml));
    lemma_small_mod(slot_value(y, ml), fermat_modulus(ml));
}

/// The twisted chunks of an operand as residues: chunk `i` times
/// `sqrt(2)^(i s)`, reduced modulo `2^n + 1`.
pub open spec fn twisted_chunks(src: Seq<Limb>, k: nat, cb: nat, s: nat, nl: nat) -> Seq<int> {
    Seq::new(
        k,
        |i: int|
            (chunk_value(src, i as nat, cb) * half_power(((i as nat) * s) % (256 * nl), nl)) % (fermat_modulus(
                nl,
            ) as int),
    )
}

/// The upper-half slot of a fused first stage holds the lower one's value
/// times the twiddle `2^(i s)`.
proof fn lemma_upper_twist(c: int, i: nat, s: nat, nl: nat)
    requires
        nl >= 1,
    ensures
        (c * half_power(upper_half_exponent(i, s, s, nl), nl)) % (fermat_modulus(nl) as int) == (((c
            * half_power((i * s) % (256 * nl), nl)) % (fermat_modulus(nl) as int)) * two_pow(s * i)) % (
        fermat_modulus(nl) as int),
{
    let f = fermat_modulus(nl) as int;
    lemma_pow_b_pos(nl);
    let e1 = (i * s) % (256 * nl);
    let t = (i * s) % (128 * nl);
    let e = e1 + 2 * t;
    lemma_reduced_twist(c, e, nl);
    lemma_half_power_add(e1, 2 * t, nl);
    assert(half_power(2 * t, nl) == two_pow(t) as int) by {
        assert((2 * t) / 2 == t);
        assert((2 * t) % 2 == 0);
        lemma_mul_basics(two_pow(t) as int);
    }
    lemma_mod_mod((i * s) as int, (128 * nl) as int, 1);
    lemma_mul_is_commutative(i as int, s as int);
    lemma_two_pow_congruent(nl, t, s * i);
    let h1 = half_power(e1, nl);
    let pt = two_pow(t) as int;
    let pi = two_pow(s * i) as int;
    // c * hp(e) = c * (h1 * pt) = (c * h1) * pt, and pt = pi modulo f.
    lemma_mul_mod_noop_right(c, half_power(e, nl), f);
    lemma_mul_mod_noop_right(c, h1 * pt, f);
    assert(c * (h1 * pt) == (c * h1) * pt) by (nonlinear_arith);
    lemma_mul_mod_noop_right(c * h1, pt, f);
    lemma_mul_mod_noop_right(c * h1, pi, f);
    lemma_mul_mod_noop_left(c * h1, pi, f);
    assert(upper_half_exponent(i, s, s, nl) == e % (256 * nl));
    assert(twiddle_exponent(i, s, nl) == t);
}

impl SsaTransform {
    /// Splits `src` into `K` twisted chunks in `matrix` and runs the forward
    /// transform. When the upper half of the operand's data limbs is zero,
    /// the upper chunks are zero, and the split writes the first stage's
    /// butterflies directly (the low chunk and the low chunk times `w^i`)
    /// before the transform continues from the second stage.
    #[verifier::rlimit(100)]
    #[verifier::spinoff_prover]
    fn stage_and_run_forward_fft(
        src: &[Limb],
        matrix: &mut [Limb],
        tw: &mut [Limb],
        plan: &FftPlan,
        modulus_bits: usize,
    )
        requires
            valid_mod_bits(modulus_bits),
            transform_geometry(*plan, modulus_bits as nat),
            src@.len() == modulus_bits / 64 + 1,
            old(matrix)@.len() == plan.transform_len * (plan.inner_bits / 64 + 1),
            old(tw)@.len() >= 2 * (plan.inner_bits / 64 + 1),
        ensures
            final(matrix)@.len() == old(matrix)@.len(),
            final(tw)@.len() == old(tw)@.len(),
            forall|p: int|
                #![trigger slot_at(final(matrix)@, p, plan.inner_bits / 64 + 1)]
                0 <= p < plan.transform_len ==> {
                    &&& semi_normalized(slot_at(final(matrix)@, p, plan.inner_bits / 64 + 1), (plan.inner_bits / 64) as nat)
                    &&& residue(slot_at(final(matrix)@, p, plan.inner_bits / 64 + 1), (plan.inner_bits / 64) as nat)
                        == power_sum(
                        twisted_chunks(
                            src@,
                            plan.transform_len as nat,
                            plan.chunk_bits as nat,
                            plan.twist_step_half as nat,
                            (plan.inner_bits / 64) as nat,
                        ),
                        (plan.twist_step_half as nat) * bit_reverse(p as nat, plan.transform_len as nat),
                        plan.transform_len as nat,
                    ) % (fermat_modulus((plan.inner_bits / 64) as nat) as int)
                },
    {
        let ml = SsaRing::mod_limbs(modulus_bits);
        let k = plan.transform_len;
        let cb = plan.chunk_bits;
        let inner = plan.inner_bits;
        let s = plan.twist_step_half;
        let cl = inner / 64 + 1;
        let ghost nl = (inner / 64) as nat;
        let ghost kn = k as nat;
        let ghost f_in = fermat_modulus(nl) as int;
        let ghost x = twisted_chunks(src@, kn, cb as nat, s as nat, nl);
        proof {
            lemma_pow_b_pos(nl);
            assert(k == 2 * (k / 2));
            assert(s * (k / 2) == inner) by (nonlinear_arith)
                requires
                    s * k == 2 * inner,
                    k == 2 * (k / 2),
            ;
            assert(s <= inner) by (nonlinear_arith)
                requires
                    s * k == 2 * inner,
                    k >= 2,
            ;
            lemma_small_mod(inner as nat, (2 * inner) as nat);
            assert(inner == 64 * nl);
        }
        // Whether the upper half of the data limbs is zero.
        let half_limbs = ml / 2;
        let mut upper_zero = ml % 2 == 0;
        let mut j = half_limbs;
        proof {
            assert(ml + 1 <= usize::MAX);
        }
        while j < ml + 1
            invariant
                ml + 1 <= usize::MAX,
                upper_zero ==> ml % 2 == 0,
                half_limbs <= j <= ml + 1,
                src@.len() == ml + 1,
                upper_zero ==> forall|q: int| half_limbs <= q < j ==> src@[q] == 0,
            decreases ml + 1 - j,
        {
            if src[j] != 0 {
                upper_zero = false;
            }
            j = j + 1;
        }
        if !upper_zero {
            proof {
                let ac = ceil_div(64 * (ml + 1) as nat, cb as nat);
                lemma_fundamental_div_mod((64 * (ml + 1) + cb - 1) as int, cb as int);
                assert(ac * cb > 64 * (ml + 1) - cb) by (nonlinear_arith)
                    requires
                        ac == (64 * (ml + 1) + cb - 1) / (cb as int),
                        (64 * (ml + 1) + cb - 1) == (cb as int) * ac + (64 * (ml + 1) + cb - 1) % (cb as int),
                        (64 * (ml + 1) + cb - 1) % (cb as int) < cb,
                        cb >= 1,
                ;
                assert(ac >= k) by (nonlinear_arith)
                    requires
                        ac * cb > 64 * (ml + 1) - cb,
                        cb * k == 64 * ml,
                        cb >= 1,
                ;
                assert(active_chunks(src@.len(), cb as nat, k as nat) == k);
            }
            SsaCoefficients::split_twisted(src, matrix, k, cb, inner, s, tw);
            let ghost m1 = matrix@;
            Self::fft_in_place(matrix, k, s, inner, false, false, tw);
            proof {
                let v = slot_values(m1, kn, cl as nat, nl);
                assert forall|i: int| 0 <= i < kn implies #[trigger] v[i] % f_in == x[i] % f_in by {
                    let c = chunk_value(src@, i as nat, cb as nat);
                    let hp = half_power(((i as nat) * (s as nat)) % (256 * nl), nl);
                    assert(slot_at(m1, i, cl as int) == slot_at(m1, i, (inner / 64 + 1) as int));
                    lemma_half_bit_residue(c, ((i as nat) * (s as nat)) % (256 * nl), nl);
                    lemma_mul_basics(f_in);
                    lemma_mod_mod(c * hp, f_in, 1);
                }
                assert forall|p: int| 0 <= p < kn implies power_sum(
                    v,
                    (s as nat) * #[trigger] bit_reverse(p as nat, kn),
                    kn,
                ) % f_in == power_sum(x, (s as nat) * bit_reverse(p as nat, kn), kn) % f_in by {
                    lemma_power_sum_congruent(v, x, (s as nat) * bit_reverse(p as nat, kn), kn, f_in);
                }
            }
        } else {
            let short = &src[0..half_limbs];
            let ghost h = (k / 2) as nat;
            proof {
                // The operand is its low half, below 2^(N / 2).
                lemma_val_split(src@, half_limbs as int);
                let upper = src@.subrange(half_limbs as int, src@.len() as int);
                assert(all_zero(upper));
                lemma_val_zero(upper);
                lemma_mul_basics(pow_b(half_limbs as nat) as int);
                assert(short@ =~= src@.subrange(0, half_limbs as int));
                lemma_val_bound(short@);
                lemma_two_pow_limbs(half_limbs as nat);
                assert(64 * half_limbs == h * cb) by (nonlinear_arith)
                    requires
                        cb * k == 64 * ml,
                        ml == 2 * half_limbs,
                        k == 2 * h,
                ;
                // Every low chunk is active in the fused split.
                assert(active_chunks(short@.len(), cb as nat, h) == h) by {
                    lemma_fundamental_div_mod_converse((64 * half_limbs + cb - 1) as int, cb as int, h as int, (cb - 1) as int);
                }
                // The upper chunks of the operand are zero.
                assert forall|i: int| h <= i < kn implies #[trigger] chunk_value(src@, i as nat, cb as nat) == 0 by {
                    assert((i as nat) * (cb as nat) >= h * cb) by (nonlinear_arith)
                        requires
                            i >= h,
                    ;
                    lemma_two_pow_monotone(h * (cb as nat), (i as nat) * (cb as nat));
                    lemma_fundamental_div_mod_converse(
                        val(src@) as int,
                        two_pow((i as nat) * (cb as nat)) as int,
                        0,
                        val(src@) as int,
                    );
                    crate::num::lemma_two_pow_pos(cb as nat);
                    lemma_small_mod(0, two_pow(cb as nat));
                }
            }
            let mlen = matrix.len();
            let done = SsaCoefficients::split_twisted_and_stage1_dif(short, matrix, k, cb, inner, s, s, tw);
            let ghost m1 = matrix@;
            proof {
                assert(done);
                assert forall|i: int| 0 <= i < k implies semi_normalized(
                    #[trigger] slot_at(m1, i, (inner / 64 + 1) as int),
                    nl,
                ) by {
                    if i < h {
                        assert(semi_normalized(slot_at(m1, i, (inner / 64 + 1) as int), nl));
                    } else {
                        let q = i - h;
                        assert(semi_normalized(slot_at(m1, q, (inner / 64 + 1) as int), nl));
                        assert(semi_normalized(slot_at(m1, (k / 2) as int + q, (inner / 64 + 1) as int), nl));
                    }
                }
            }
            Self::fft_in_place_from_stage2(matrix, k, s, inner, tw);
            proof {
                let cli = (nl + 1) as int;
                let lm = m1.subrange(0, (h * (nl + 1)) as int);
                let hm = m1.subrange((h * (nl + 1)) as int, m1.len() as int);
                let mf = matrix@;
                let lfin = mf.subrange(0, (h * (nl + 1)) as int);
                let hfin = mf.subrange((h * (nl + 1)) as int, mf.len() as int);
                assert(m1.len() == 2 * (h * (nl + 1))) by (nonlinear_arith)
                    requires
                        m1.len() == kn * (nl + 1),
                        kn == 2 * h,
                ;
                assert forall|i: int| 0 <= i < h implies #[trigger] x[h + i] == 0 by {
                    lemma_small_mod(0, f_in as nat);
                }
                assert forall|i: int|
                    #![trigger slot_at(lm, i, nl + 1int)]
                    0 <= i < h implies {
                    &&& semi_normalized(slot_at(lm, i, nl + 1int), nl)
                    &&& residue(slot_at(lm, i, nl + 1int), nl) == (x[i] + x[h + i]) % f_in
                } by {
                    lemma_slot_offsets(i, h as int, cli);
                    assert(slot_at(lm, i, cli) =~= slot_at(m1, i, cli));
                    assert(slot_at(m1, i, cli) == slot_at(m1, i, (inner / 64 + 1) as int));
                    assert(val(short@) == val(src@));
                    assert(chunk_value(short@, i as nat, cb as nat) == chunk_value(src@, i as nat, cb as nat));
                    let c = chunk_value(src@, i as nat, cb as nat);
                    let hp = half_power(((i as nat) * (s as nat)) % (256 * nl), nl);
                    lemma_half_bit_residue(c, ((i as nat) * (s as nat)) % (256 * nl), nl);
                    assert(x[h + i] == 0);
                    lemma_mul_basics(f_in);
                    lemma_mod_mod(c * hp, f_in, 1);
                }
                assert forall|i: int|
                    #![trigger slot_at(hm, i, nl + 1int)]
                    0 <= i < h implies {
                    &&& semi_normalized(slot_at(hm, i, nl + 1int), nl)
                    &&& residue(slot_at(hm, i, nl + 1int), nl) == ((x[i] - x[h + i]) * two_pow(
                        (s as nat) * (i as nat),
                    )) % f_in
                } by {
                    lemma_slot_offsets(i, h as int, cli);
                    lemma_mul_is_distributive_add_other_way(cli, h as int, i);
                    assert(slot_at(hm, i, cli) =~= slot_at(m1, h + i, cli));
                    assert(slot_at(m1, h + i, cli) == slot_at(m1, (k / 2) as int + i, (inner / 64 + 1) as int));
                    assert(semi_normalized(slot_at(m1, i, (inner / 64 + 1) as int), nl));
                    assert(val(short@) == val(src@));
                    assert(chunk_value(short@, i as nat, cb as nat) == chunk_value(src@, i as nat, cb as nat));
                    assert(x[h + i] == 0);
                    lemma_mul_basics(two_pow((s as nat) * (i as nat)) as int);
                    let c = chunk_value(src@, i as nat, cb as nat) as int;
                    lemma_half_bit_residue(c as nat, upper_half_exponent(i as nat, s as nat, s as nat, nl), nl);
                    lemma_upper_twist(c, i as nat, s as nat, nl);
                }
                assert forall|p: int|
                    #![trigger slot_at(lfin, p, nl + 1int)]
                    0 <= p < h implies {
                    &&& semi_normalized(slot_at(lfin, p, nl + 1int), nl)
                    &&& residue(slot_at(lfin, p, nl + 1int), nl) == power_sum(
                        slot_values(lm, h, (nl + 1) as nat, nl),
                        (((s as nat) * 2) % (128 * nl)) * bit_reverse(p as nat, h),
                        h,
                    ) % f_in
                } by {
                    assert(slot_at(lfin, p, nl + 1int) == slot_at(lfin, p, (inner / 64 + 1) as int));
                }
                assert forall|p: int|
                    #![trigger slot_at(hfin, p, nl + 1int)]
                    0 <= p < h implies {
                    &&& semi_normalized(slot_at(hfin, p, nl + 1int), nl)
                    &&& residue(slot_at(hfin, p, nl + 1int), nl) == power_sum(
                        slot_values(hm, h, (nl + 1) as nat, nl),
                        (((s as nat) * 2) % (128 * nl)) * bit_reverse(p as nat, h),
                        h,
                    ) % f_in
                } by {
                    assert(slot_at(hfin, p, nl + 1int) == slot_at(hfin, p, (inner / 64 + 1) as int));
                }
                lemma_dif_halves(x, lm, hm, lfin, hfin, mf, h, s as nat, nl);
            }
        }
    }
}

} // verus!
