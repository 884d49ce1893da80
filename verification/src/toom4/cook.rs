//! The four-way driver: split, evaluate, multiply pointwise, interpolate and
//! reconstruct.

use crate::eval::SharedEval;
use crate::kernels::Addition;
use crate::limbs::{
    Limb, lemma_pow_b_add, lemma_pow_b_monotone, lemma_pow_b_pos, lemma_val_bound,
    lemma_val_concat, lemma_val_split, lemma_val_zero, pow_b, radix, val,
};
use crate::ssa::carry::SsaCarry;
use crate::toom3::{
    Toom3, abs, lemma_expand2, lemma_signed_product, lemma_toom3_scratch_monotone,
    lemma_val_prefix_step_full, spec_toom3_scratch,
};
use crate::toom4::algebra::{coefficients_fit, eval4, eval4_half, lemma_evaluation_bounds, lemma_four_regions, lemma_part_powers, lemma_parts_bound, lemma_poly4_product, lemma_toom4_points, max_len, parts_below};
use crate::toom4::interpolate::{MiddleValues, observed_points, seven_points};
use vstd::arithmetic::mul::*;
use vstd::prelude::*;

verus! {
/// Operands at least this long take the four-way split when an evaluated
/// product recurses; shorter ones go to the three-way tier.
pub const TOOM4_THRESHOLD: usize = 320;

/// The part width for an operand of `n` limbs: `ceil(n / 4)`.
pub open spec fn spec_toom4_split_len(n: nat) -> nat {
    (n + 3) / 4
}

/// Scratch one level of the split partitions: four point products of
/// `2s + 2` limbs, two evaluations of `s + 1` limbs, and the recursion's own.
pub open spec fn spec_toom4_local_scratch_len(split_len: nat, inner_space: nat) -> nat {
    4 * (2 * (split_len + 1)) + 2 * (split_len + 1) + inner_space
}

/// Scratch a four-way product or square of operands of at most `n` limbs
/// needs, recursion and the three-way fallback included.
pub open spec fn spec_toom4_scratch(n: nat) -> nat
    decreases n,
{
    if n < 4 {
        spec_toom3_scratch(n)
    } else {
        let s = spec_toom4_split_len(n);
        let own = spec_toom4_local_scratch_len(s, spec_toom4_scratch(s));
        if own >= spec_toom3_scratch(n) {
            own
        } else {
            spec_toom3_scratch(n)
        }
    }
}

/// Namespace for the four-way tier.
pub struct Toom4;

/// One level's scratch, carved into disjoint buffers.
pub struct ScratchLayout<'a> {
    pub neg_two: &'a mut [Limb],
    pub neg_one: &'a mut [Limb],
    pub two: &'a mut [Limb],
    pub half: &'a mut [Limb],
    pub eval_a: &'a mut [Limb],
    pub eval_b: &'a mut [Limb],
    pub inner: &'a mut [Limb],
}

/// The point products and signs the interpolation into the destination reads.
pub struct DestinationInterpolation<'a> {
    pub split_len: usize,
    pub product_len: usize,
    pub low_product_len: usize,
    pub high_product_len: usize,
    pub neg_two: &'a mut [Limb],
    pub neg_one: &'a mut [Limb],
    pub two: &'a mut [Limb],
    pub half: &'a mut [Limb],
    pub neg_two_negative: bool,
    pub neg_one_negative: bool,
}

/// The four parts of one operand.
#[derive(Clone, Copy)]
pub struct OperandParts<'a> {
    pub zero: &'a [Limb],
    pub one: &'a [Limb],
    pub two: &'a [Limb],
    pub three: &'a [Limb],
}

/// The point products kept in scratch for the interpolation.
pub struct MiddleProducts<'a> {
    pub neg_two: &'a mut [Limb],
    pub neg_one: &'a mut [Limb],
    pub two: &'a mut [Limb],
    pub half: &'a mut [Limb],
}

/// Which evaluation kernels a level may use.
#[derive(Clone, Copy)]
pub struct EvaluationKernels {
    /// Whether the paired sum-and-difference evaluation is available.
    pub fast_paired_add_sub: bool,
}

/// The operand evaluations and the recursion's scratch.
pub struct EvaluationBuffers<'a> {
    pub a: &'a mut [Limb],
    pub b: &'a mut [Limb],
    pub inner: &'a mut [Limb],
    pub kernels: EvaluationKernels,
}

/// The widths of one level: parts, evaluations and point products.
#[derive(Clone, Copy)]
pub struct PointDimensions {
    pub split: usize,
    pub evaluation: usize,
    pub product: usize,
}

/// The four-way scratch covers the three-way tier's.
proof fn lemma_toom4_covers_toom3(n: nat)
    ensures
        spec_toom3_scratch(n) <= spec_toom4_scratch(n),
{
}

impl Toom4 {
    /// Carves one level's scratch into its four point products, the two
    /// operand evaluations, and the space left for the recursive products.
    pub fn split_scratch<'a>(scratch: &'a mut [Limb], product_len: usize, eval_len: usize) -> (layout:
        ScratchLayout<'a>)
        requires
            4 * product_len + 2 * eval_len <= old(scratch)@.len(),
        ensures
            layout.neg_two@ == old(scratch)@.subrange(0, product_len as int),
            layout.neg_one@ == old(scratch)@.subrange(product_len as int, 2 * product_len as int),
            layout.two@ == old(scratch)@.subrange(2 * product_len as int, 3 * product_len as int),
            layout.half@ == old(scratch)@.subrange(3 * product_len as int, 4 * product_len as int),
            layout.eval_a@ == old(scratch)@.subrange(
                4 * product_len as int,
                4 * product_len + eval_len as int,
            ),
            layout.eval_b@ == old(scratch)@.subrange(
                4 * product_len + eval_len as int,
                4 * product_len + 2 * eval_len as int,
            ),
            layout.inner@ == old(scratch)@.subrange(
                4 * product_len + 2 * eval_len as int,
                old(scratch)@.len() as int,
            ),
            final(scratch)@ == final(layout.neg_two)@ + final(layout.neg_one)@ + final(layout.two)@
                + final(layout.half)@ + final(layout.eval_a)@ + final(layout.eval_b)@
                + final(layout.inner)@,
    {
        let (neg_two, after_neg_two) = scratch.split_at_mut(product_len);
        let (neg_one, after_neg_one) = after_neg_two.split_at_mut(product_len);
        let (two, after_two) = after_neg_one.split_at_mut(product_len);
        let (half, after_half) = after_two.split_at_mut(product_len);
        let (eval_a, after_eval_a) = after_half.split_at_mut(eval_len);
        let (eval_b, inner) = after_eval_a.split_at_mut(eval_len);
        ScratchLayout { neg_two, neg_one, two, half, eval_a, eval_b, inner }
    }

    /// Scratch one level of the split partitions, in word arithmetic.
    pub fn local_scratch_len(split_len: usize, inner_space: usize) -> (len: usize)
        ensures
            spec_toom4_local_scratch_len(split_len as nat, inner_space as nat) <= usize::MAX
                ==> len == spec_toom4_local_scratch_len(split_len as nat, inner_space as nat),
    {
        let eval_len = split_len.wrapping_add(1);
        let product_len = eval_len.wrapping_mul(2);
        proof {
            if spec_toom4_local_scratch_len(split_len as nat, inner_space as nat) <= usize::MAX {
                vstd::arithmetic::div_mod::lemma_small_mod(
                    (split_len + 1) as nat,
                    (usize::MAX + 1) as nat,
                );
                vstd::arithmetic::div_mod::lemma_small_mod(
                    (eval_len * 2) as nat,
                    (usize::MAX + 1) as nat,
                );
                vstd::arithmetic::div_mod::lemma_small_mod(
                    (product_len * 4) as nat,
                    (usize::MAX + 1) as nat,
                );
                vstd::arithmetic::div_mod::lemma_small_mod(
                    (eval_len * 2) as nat,
                    (usize::MAX + 1) as nat,
                );
            }
        }
        product_len.wrapping_mul(4).wrapping_add(eval_len.wrapping_mul(2)).wrapping_add(
            inner_space,
        )
    }
}

impl Toom4 {
    /// Multiplies `a` by `b` through the four-way tier when both reach its
    /// threshold and through the three-way tier otherwise.
    fn product(dst: &mut [Limb], a: &[Limb], b: &[Limb], scratch: &mut [Limb], square: bool)
        requires
            old(dst)@.len() == a@.len() + b@.len(),
            old(scratch)@.len() >= spec_toom4_scratch(max_len(a@.len(), b@.len())),
            square ==> a@ == b@,
        ensures
            final(dst)@.len() == old(dst)@.len(),
            final(scratch)@.len() == old(scratch)@.len(),
            val(final(dst)@) == val(a@) * val(b@),
        decreases max_len(a@.len(), b@.len()), 4nat,
    {
        proof {
            lemma_toom4_covers_toom3(max_len(a@.len(), b@.len()));
        }
        if a.len() >= TOOM4_THRESHOLD && b.len() >= TOOM4_THRESHOLD {
            if square {
                Self::sqr_exact(dst, a, scratch);
            } else {
                Self::mul_exact(dst, a, b, scratch);
            }
        } else if square {
            Toom3::sqr_exact(dst, a, scratch);
        } else {
            Toom3::mul_exact(dst, a, b, scratch);
        }
    }

    /// Multiplies two evaluations of `s + 1` limbs into `2s + 2` limbs: the
    /// low `s` limbs recursively, the guard limbs as word corrections.
    #[verifier::rlimit(40)]
    #[verifier::spinoff_prover]
    fn guarded_product(
        dst: &mut [Limb],
        x: &[Limb],
        y: &[Limb],
        inner: &mut [Limb],
        square: bool,
    )
        requires
            x@.len() >= 1,
            y@.len() == x@.len(),
            old(dst)@.len() == 2 * x@.len(),
            val(x@) * val(y@) < pow_b((2 * x@.len() - 1) as nat),
            old(inner)@.len() >= spec_toom4_scratch((x@.len() - 1) as nat),
            square ==> x@ == y@,
        ensures
            final(dst)@.len() == old(dst)@.len(),
            final(inner)@.len() == old(inner)@.len(),
            val(final(dst)@) == val(x@) * val(y@),
        decreases x@.len(), 0nat,
    {
        let s = x.len() - 1;
        let dl = dst.len();
        let xl = &x[0..s];
        let yl = &y[0..s];
        let gx = x[s];
        let gy = y[s];
        let ghost p = pow_b(s as nat) as int;
        proof {
            lemma_val_prefix_step_full(x@, s as int);
            lemma_val_prefix_step_full(y@, s as int);
            assert(xl@ =~= x@.subrange(0, s as int));
            assert(yl@ =~= y@.subrange(0, s as int));
            lemma_pow_b_pos(s as nat);
            lemma_pow_b_add(s as nat, s as nat);
            lemma_pow_b_add((2 * s) as nat, 1);
            crate::limbs::lemma_pow_b_one();
            if square {
                assert(yl@ =~= xl@);
            }
        }
        let ghost low_final: Seq<Limb>;
        let ghost top_final: Seq<Limb>;
        {
            let (low, top) = dst.split_at_mut(2 * s);
            Self::product(low, xl, yl, inner, square);
            Addition::fill_zero(top);
            proof {
                low_final = low@;
                top_final = top@;
            }
        }
        proof {
            assert(dst@ =~= low_final + top_final);
            lemma_val_concat(low_final, top_final);
            lemma_val_zero(top_final);
            lemma_mul_basics(pow_b(low_final.len()) as int);
            assert(val(dst@) == val(xl@) * val(yl@));
        }
        let ghost xv = val(xl@) as int;
        let ghost yv = val(yl@) as int;
        proof {
            let big = pow_b((2 * s + 1) as nat) as int;
            let q = p * p;
            assert(val(x@) == xv + gx * p);
            assert(val(y@) == yv + gy * p);
            lemma_expand2(xv, gx as int, yv, gy as int, p);
            lemma_mul_nonnegative(xv, yv);
            lemma_mul_nonnegative(yv * gx, p);
            lemma_mul_nonnegative(yv, gx as int);
            lemma_mul_nonnegative(xv, gy as int);
            lemma_mul_nonnegative(xv * gy, p);
            lemma_mul_nonnegative(gx as int, gy as int);
            lemma_mul_nonnegative(p, p);
            lemma_mul_nonnegative(gx * gy, q);
            assert(big == q * radix());
            lemma_mul_is_commutative(q, radix() as int);
            lemma_mul_strict_inequality_converse(gx * gy, radix() as int, q);
            crate::limbs::lemma_pow_b_strict((2 * s + 1) as nat, dl as nat);
        }
        SharedEval::add_mul_word_at(dst, yl, gx, s);
        SharedEval::add_mul_word_at(dst, xl, gy, s);
        let corner: [Limb; 1] = [gx * gy];
        proof {
            assert(corner@ =~= seq![(gx * gy) as u64]);
            crate::limbs::lemma_val_single((gx * gy) as u64);
        }
        SharedEval::add_coefficient_in_place(dst, &corner, 2 * s);
    }

    /// Multiplies two evaluations of `s + 1` limbs, each below `15 B^s`,
    /// into `2s + 2` limbs; the product of the low limbs may re-enter the
    /// four-way tier.
    pub fn recursive_mul_evaluation(
        dst: &mut [Limb],
        evaluation_a: &[Limb],
        evaluation_b: &[Limb],
        scratch: &mut [Limb],
    )
        requires
            evaluation_a@.len() >= 1,
            evaluation_b@.len() == evaluation_a@.len(),
            old(dst)@.len() == 2 * evaluation_a@.len(),
            val(evaluation_a@) < 15 * pow_b((evaluation_a@.len() - 1) as nat),
            val(evaluation_b@) < 15 * pow_b((evaluation_a@.len() - 1) as nat),
            old(scratch)@.len() >= spec_toom4_scratch((evaluation_a@.len() - 1) as nat),
        ensures
            final(dst)@.len() == old(dst)@.len(),
            final(scratch)@.len() == old(scratch)@.len(),
            val(final(dst)@) == val(evaluation_a@) * val(evaluation_b@),
    {
        proof {
            Self::lemma_guarded_bound(
                val(evaluation_a@) as int,
                val(evaluation_b@) as int,
                (evaluation_a@.len() - 1) as nat,
            );
        }
        Self::guarded_product(dst, evaluation_a, evaluation_b, scratch, false);
    }

    /// Squares an evaluation of `s + 1` limbs, below `15 B^s`, into `2s + 2`
    /// limbs.
    pub fn recursive_sqr_evaluation(dst: &mut [Limb], evaluation: &[Limb], scratch: &mut [Limb])
        requires
            evaluation@.len() >= 1,
            old(dst)@.len() == 2 * evaluation@.len(),
            val(evaluation@) < 15 * pow_b((evaluation@.len() - 1) as nat),
            old(scratch)@.len() >= spec_toom4_scratch((evaluation@.len() - 1) as nat),
        ensures
            final(dst)@.len() == old(dst)@.len(),
            final(scratch)@.len() == old(scratch)@.len(),
            val(final(dst)@) == val(evaluation@) * val(evaluation@),
    {
        proof {
            Self::lemma_guarded_bound(
                val(evaluation@) as int,
                val(evaluation@) as int,
                (evaluation@.len() - 1) as nat,
            );
        }
        Self::guarded_product(dst, evaluation, evaluation, scratch, true);
    }

    /// Two values below `15 B^s` multiply below `B^(2s + 1)`.
    proof fn lemma_guarded_bound(x: int, y: int, s: nat)
        requires
            0 <= x < 15 * pow_b(s),
            0 <= y < 15 * pow_b(s),
        ensures
            x * y < pow_b(2 * s + 1),
    {
        let p = pow_b(s) as int;
        lemma_pow_b_pos(s);
        lemma_pow_b_add(s, s);
        lemma_pow_b_add(2 * s, 1);
        crate::limbs::lemma_pow_b_one();
        assert(x * y < 225 * (p * p)) by (nonlinear_arith)
            requires
                0 <= x < 15 * p,
                0 <= y < 15 * p,
        ;
        assert(225 * (p * p) < (p * p) * radix()) by (nonlinear_arith)
            requires
                p >= 1,
        ;
    }

    /// Multiplies `a` by `b` into `dst`, which holds at least
    /// `a.len() + b.len()` limbs and receives the product zero-extended.
    pub fn mul(dst: &mut [Limb], a: &[Limb], b: &[Limb], scratch: &mut [Limb])
        requires
            old(dst)@.len() >= a@.len() + b@.len(),
            old(scratch)@.len() >= spec_toom4_scratch(max_len(a@.len(), b@.len())),
        ensures
            final(dst)@.len() == old(dst)@.len(),
            final(scratch)@.len() == old(scratch)@.len(),
            val(final(dst)@) == val(a@) * val(b@),
    {
        let dl = dst.len();
        let n = a.len() + b.len();
        if dl == n {
            Self::mul_exact(dst, a, b, scratch);
        } else {
            let mut full: Vec<Limb> = vec![0; n];
            Self::mul_exact(full.as_mut_slice(), a, b, scratch);
            Addition::copy_zero_extended(dst, full.as_slice());
        }
    }

    /// Squares `a` into `dst`, which holds at least `2 * a.len()` limbs and
    /// receives the square zero-extended.
    pub fn sqr(dst: &mut [Limb], a: &[Limb], scratch: &mut [Limb])
        requires
            old(dst)@.len() >= 2 * a@.len(),
            old(scratch)@.len() >= spec_toom4_scratch(a@.len()),
        ensures
            final(dst)@.len() == old(dst)@.len(),
            final(scratch)@.len() == old(scratch)@.len(),
            val(final(dst)@) == val(a@) * val(a@),
    {
        let dl = dst.len();
        let n = 2 * a.len();
        if dl == n {
            Self::sqr_exact(dst, a, scratch);
        } else {
            let mut full: Vec<Limb> = vec![0; n];
            Self::sqr_exact(full.as_mut_slice(), a, scratch);
            Addition::copy_zero_extended(dst, full.as_slice());
        }
    }

    /// Multiplies `a` by `b` into `dst`, which holds exactly
    /// `a.len() + b.len()` limbs: through one four-way split when both
    /// operands have four parts, through the three-way tier otherwise.
    pub(crate) fn mul_exact(dst: &mut [Limb], a: &[Limb], b: &[Limb], scratch: &mut [Limb])
        requires
            old(dst)@.len() == a@.len() + b@.len(),
            old(scratch)@.len() >= spec_toom4_scratch(max_len(a@.len(), b@.len())),
        ensures
            final(dst)@.len() == old(dst)@.len(),
            final(scratch)@.len() == old(scratch)@.len(),
            val(final(dst)@) == val(a@) * val(b@),
        decreases max_len(a@.len(), b@.len()), 3nat,
    {
        proof {
            lemma_toom4_covers_toom3(max_len(a@.len(), b@.len()));
        }
        if a.len() < 4 || b.len() < 4 {
            Toom3::mul_exact(dst, a, b, scratch);
            return;
        }
        let dl = dst.len();
        let n = if a.len() >= b.len() {
            a.len()
        } else {
            b.len()
        };
        let split_len = (n + 3) / 4;
        if a.len() <= 3 * split_len || b.len() <= 3 * split_len {
            Toom3::mul_exact(dst, a, b, scratch);
            return;
        }
        Self::four_way(dst, a, b, scratch, false);
    }

    /// Squares `a` into `dst`, which holds exactly `2 a.len()` limbs: through
    /// one four-way split when `a` has four parts, through the three-way tier
    /// otherwise.
    pub(crate) fn sqr_exact(dst: &mut [Limb], a: &[Limb], scratch: &mut [Limb])
        requires
            old(dst)@.len() == 2 * a@.len(),
            old(scratch)@.len() >= spec_toom4_scratch(a@.len()),
        ensures
            final(dst)@.len() == old(dst)@.len(),
            final(scratch)@.len() == old(scratch)@.len(),
            val(final(dst)@) == val(a@) * val(a@),
        decreases a@.len(), 3nat,
    {
        proof {
            lemma_toom4_covers_toom3(a@.len());
        }
        if a.len() < 4 {
            Toom3::sqr_exact(dst, a, scratch);
            return;
        }
        let dl = dst.len();
        let split_len = (a.len() + 3) / 4;
        if a.len() <= 3 * split_len {
            Toom3::sqr_exact(dst, a, scratch);
            return;
        }
        Self::four_way(dst, a, a, scratch, true);
    }

    /// One level of the four-way split for operands of four parts each;
    /// `square` reuses the left operand's evaluations for the right.
    #[verifier::rlimit(60)]
    #[verifier::spinoff_prover]
    fn four_way(dst: &mut [Limb], a: &[Limb], b: &[Limb], scratch: &mut [Limb], square: bool)
        requires
            a@.len() >= 4,
            b@.len() >= 4,
            a@.len() > 3 * spec_toom4_split_len(max_len(a@.len(), b@.len())),
            b@.len() > 3 * spec_toom4_split_len(max_len(a@.len(), b@.len())),
            old(dst)@.len() == a@.len() + b@.len(),
            old(scratch)@.len() >= spec_toom4_scratch(max_len(a@.len(), b@.len())),
            square ==> a@ == b@,
        ensures
            final(dst)@.len() == old(dst)@.len(),
            final(scratch)@.len() == old(scratch)@.len(),
            val(final(dst)@) == val(a@) * val(b@),
        decreases max_len(a@.len(), b@.len()), 2nat,
    {
        let total = dst.len();
        let n = if a.len() >= b.len() {
            a.len()
        } else {
            b.len()
        };
        let s = (n + 3) / 4;
        let (a0, a1, a2, a3) = Self::split_four(a, s);
        let (b0, b1, b2, b3) = Self::split_four(b, s);
        let e = s + 1;
        let w = 2 * e;
        let ghost x = pow_b(s as nat) as int;
        let ghost (x0, x1, x2, x3) = (val(a0@) as int, val(a1@) as int, val(a2@) as int, val(a3@) as int);
        let ghost (y0, y1, y2, y3) = (val(b0@) as int, val(b1@) as int, val(b2@) as int, val(b3@) as int);
        let ghost c0 = x0 * y0;
        let ghost c1 = x0 * y1 + x1 * y0;
        let ghost c2 = x0 * y2 + x1 * y1 + x2 * y0;
        let ghost c3 = x0 * y3 + x1 * y2 + x2 * y1 + x3 * y0;
        let ghost c4 = x1 * y3 + x2 * y2 + x3 * y1;
        let ghost c5 = x2 * y3 + x3 * y2;
        let ghost c6 = x3 * y3;
        proof {
            assert(n == max_len(a@.len(), b@.len()));
            assert(s == spec_toom4_split_len(n as nat));
            assert(n <= 4 * s);
            if square {
                assert(b0@ =~= a0@);
                assert(b1@ =~= a1@);
                assert(b2@ =~= a2@);
                assert(b3@ =~= a3@);
            }
            Self::lemma_level_algebra(a0@, a1@, a2@, a3@, b0@, b1@, b2@, b3@, s as nat);
            Self::lemma_level_result(a@, b@, a0@, a1@, a2@, a3@, b0@, b1@, b2@, b3@, s as nat);
        }
        let ScratchLayout { neg_two, neg_one, two, half, eval_a, eval_b, inner } = Self::split_scratch(
            scratch,
            w,
            e,
        );
        let ghost low_final: Seq<Limb>;
        let ghost one_final: Seq<Limb>;
        let ghost high_final: Seq<Limb>;
        let signs;
        {
            let (low, rest) = dst.split_at_mut(2 * s);
            let (one, high) = rest.split_at_mut(w);
            signs = Self::evaluate_and_multiply(
                one,
                neg_two,
                neg_one,
                two,
                half,
                eval_a,
                eval_b,
                inner,
                a0,
                a1,
                a2,
                a3,
                b0,
                b1,
                b2,
                b3,
                s,
                square,
            );
            proof {
                low_final = low@;
                one_final = one@;
                high_final = high@;
            }
        }
        proof {
            assert(dst@ =~= low_final + one_final + high_final);
            assert(dst@.subrange(2 * s as int, (2 * s + w) as int) =~= one_final);
            lemma_signed_product(eval4(x0, x1, x2, x3, -1), eval4(y0, y1, y2, y3, -1));
            lemma_signed_product(eval4(x0, x1, x2, x3, -2), eval4(y0, y1, y2, y3, -2));
        }
        Self::finish(
            dst,
            neg_two,
            neg_one,
            two,
            half,
            inner,
            a0,
            b0,
            a3,
            b3,
            s,
            signs.0,
            signs.1,
            square,
            Ghost(c0),
            Ghost(c1),
            Ghost(c2),
            Ghost(c3),
            Ghost(c4),
            Ghost(c5),
            Ghost(c6),
        );
    }
}

impl Toom4 {
    /// Multiplies two evaluations, or squares the first.
    fn point_product(dst: &mut [Limb], ea: &[Limb], eb: &[Limb], inner: &mut [Limb], square: bool)
        requires
            ea@.len() >= 1,
            eb@.len() == ea@.len(),
            old(dst)@.len() == 2 * ea@.len(),
            val(ea@) < 15 * pow_b((ea@.len() - 1) as nat),
            !square ==> val(eb@) < 15 * pow_b((ea@.len() - 1) as nat),
            old(inner)@.len() >= spec_toom4_scratch((ea@.len() - 1) as nat),
        ensures
            final(dst)@.len() == old(dst)@.len(),
            final(inner)@.len() == old(inner)@.len(),
            val(final(dst)@) == val(ea@) * (if square {
                val(ea@)
            } else {
                val(eb@)
            }),
        decreases ea@.len(), 1nat,
    {
        proof {
            if !square {
                Self::lemma_guarded_bound(
                    val(ea@) as int,
                    val(eb@) as int,
                    (ea@.len() - 1) as nat,
                );
            }
            Self::lemma_guarded_bound(
                val(ea@) as int,
                val(ea@) as int,
                (ea@.len() - 1) as nat,
            );
        }
        if square {
            Self::guarded_product(dst, ea, ea, inner, true);
        } else {
            Self::guarded_product(dst, ea, eb, inner, false);
        }
    }

    /// Evaluates both operands at `1, -1, 2, -2, 1/2` and multiplies the
    /// evaluations pointwise; the signs of the values at `-2` and `-1`
    /// come back.
    #[verifier::rlimit(40)]
    #[verifier::spinoff_prover]
    fn evaluate_and_multiply(
        one: &mut [Limb],
        neg_two: &mut [Limb],
        neg_one: &mut [Limb],
        two: &mut [Limb],
        half: &mut [Limb],
        eval_a: &mut [Limb],
        eval_b: &mut [Limb],
        inner: &mut [Limb],
        a0: &[Limb],
        a1: &[Limb],
        a2: &[Limb],
        a3: &[Limb],
        b0: &[Limb],
        b1: &[Limb],
        b2: &[Limb],
        b3: &[Limb],
        s: usize,
        square: bool,
    ) -> (signs: (bool, bool))
        requires
            s >= 1,
            old(one)@.len() == 2 * s + 2,
            old(neg_two)@.len() == 2 * s + 2,
            old(neg_one)@.len() == 2 * s + 2,
            old(two)@.len() == 2 * s + 2,
            old(half)@.len() == 2 * s + 2,
            old(eval_a)@.len() == s + 1,
            old(eval_b)@.len() == s + 1,
            old(inner)@.len() >= spec_toom4_scratch(s as nat),
            parts_below(a0@, a1@, a2@, a3@, s as nat),
            parts_below(b0@, b1@, b2@, b3@, s as nat),
            square ==> a0@ == b0@ && a1@ == b1@ && a2@ == b2@ && a3@ == b3@,
        ensures
            final(one)@.len() == 2 * s + 2,
            final(neg_two)@.len() == 2 * s + 2,
            final(neg_one)@.len() == 2 * s + 2,
            final(two)@.len() == 2 * s + 2,
            final(half)@.len() == 2 * s + 2,
            final(eval_a)@.len() == s + 1,
            final(eval_b)@.len() == s + 1,
            final(inner)@.len() == old(inner)@.len(),
            ({
                let (x0, x1, x2, x3) = (val(a0@) as int, val(a1@) as int, val(a2@) as int, val(a3@) as int);
                let (y0, y1, y2, y3) = (val(b0@) as int, val(b1@) as int, val(b2@) as int, val(b3@) as int);
                &&& val(final(one)@) == eval4(x0, x1, x2, x3, 1) * eval4(y0, y1, y2, y3, 1)
                &&& val(final(neg_one)@) == abs(eval4(x0, x1, x2, x3, -1)) * abs(eval4(y0, y1, y2, y3, -1))
                &&& signs.1 == ((eval4(x0, x1, x2, x3, -1) < 0) != (eval4(y0, y1, y2, y3, -1) < 0))
                &&& val(final(two)@) == eval4(x0, x1, x2, x3, 2) * eval4(y0, y1, y2, y3, 2)
                &&& val(final(neg_two)@) == abs(eval4(x0, x1, x2, x3, -2)) * abs(eval4(y0, y1, y2, y3, -2))
                &&& signs.0 == ((eval4(x0, x1, x2, x3, -2) < 0) != (eval4(y0, y1, y2, y3, -2) < 0))
                &&& val(final(half)@) == eval4_half(x0, x1, x2, x3) * eval4_half(y0, y1, y2, y3)
            }),
        decreases s + 2, 1nat,
    {
        let e = eval_a.len();
        proof {
            lemma_parts_bound(a0@, a1@, a2@, a3@, s as nat);
            lemma_parts_bound(b0@, b1@, b2@, b3@, s as nat);
            lemma_evaluation_bounds(
                val(a0@) as int,
                val(a1@) as int,
                val(a2@) as int,
                val(a3@) as int,
                pow_b(s as nat) as int,
            );
            lemma_evaluation_bounds(
                val(b0@) as int,
                val(b1@) as int,
                val(b2@) as int,
                val(b3@) as int,
                pow_b(s as nat) as int,
            );
            if square {
                assert(val(a0@) == val(b0@) && val(a1@) == val(b1@) && val(a2@) == val(b2@) && val(
                    a3@,
                ) == val(b3@));
            }
        }
        // At 1.
        Self::evaluate_positive(eval_a, a0, a1, a2, a3, 0);
        if !square {
            Self::evaluate_positive(eval_b, b0, b1, b2, b3, 0);
        }
        Self::point_product(one, eval_a, eval_b, inner, square);
        // At -1, staging the odd halves in the low limbs of `neg_two`.
        let neg1_a;
        let mut neg1_b;
        {
            let (temp, _) = neg_two.split_at_mut(e);
            neg1_a = Self::evaluate_negative_magnitude(eval_a, temp, a0, a1, a2, a3, 0);
            neg1_b = neg1_a;
            if !square {
                neg1_b = Self::evaluate_negative_magnitude(eval_b, temp, b0, b1, b2, b3, 0);
            }
        }
        Self::point_product(neg_one, eval_a, eval_b, inner, square);
        // At 2.
        Self::evaluate_positive(eval_a, a0, a1, a2, a3, 1);
        if !square {
            Self::evaluate_positive(eval_b, b0, b1, b2, b3, 1);
        }
        Self::point_product(two, eval_a, eval_b, inner, square);
        // At -2, staging the odd halves in the low limbs of `half`.
        let neg2_a;
        let mut neg2_b;
        {
            let (temp, _) = half.split_at_mut(e);
            neg2_a = Self::evaluate_negative_magnitude(eval_a, temp, a0, a1, a2, a3, 1);
            neg2_b = neg2_a;
            if !square {
                neg2_b = Self::evaluate_negative_magnitude(eval_b, temp, b0, b1, b2, b3, 1);
            }
        }
        Self::point_product(neg_two, eval_a, eval_b, inner, square);
        // At 1/2, scaled by eight.
        Self::evaluate_half_scaled(eval_a, a0, a1, a2, a3);
        if !square {
            Self::evaluate_half_scaled(eval_b, b0, b1, b2, b3);
        }
        Self::point_product(half, eval_a, eval_b, inner, square);
        (neg2_a != neg2_b, neg1_a != neg1_b)
    }
}

impl Toom4 {
    /// The algebra behind one level: the point values in the coefficients,
    /// the coefficients' room in a point product, and the parts' shapes.
    #[verifier::rlimit(40)]
    #[verifier::spinoff_prover]
    proof fn lemma_level_algebra(
        a0: Seq<Limb>,
        a1: Seq<Limb>,
        a2: Seq<Limb>,
        a3: Seq<Limb>,
        b0: Seq<Limb>,
        b1: Seq<Limb>,
        b2: Seq<Limb>,
        b3: Seq<Limb>,
        s: nat,
    )
        requires
            s >= 1,
            parts_below(a0, a1, a2, a3, s),
            parts_below(b0, b1, b2, b3, s),
        ensures
            ({
                let (x0, x1, x2, x3) = (val(a0) as int, val(a1) as int, val(a2) as int, val(a3) as int);
                let (y0, y1, y2, y3) = (val(b0) as int, val(b1) as int, val(b2) as int, val(b3) as int);
                let c0 = x0 * y0;
                let c1 = x0 * y1 + x1 * y0;
                let c2 = x0 * y2 + x1 * y1 + x2 * y0;
                let c3 = x0 * y3 + x1 * y2 + x2 * y1 + x3 * y0;
                let c4 = x1 * y3 + x2 * y2 + x3 * y1;
                let c5 = x2 * y3 + x3 * y2;
                let c6 = x3 * y3;
                &&& coefficients_fit(c0, c1, c2, c3, c4, c5, c6, pow_b(2 * s + 2) as int)
                &&& eval4(x0, x1, x2, x3, 1) * eval4(y0, y1, y2, y3, 1) == c0 + c1 + c2 + c3 + c4
                    + c5 + c6
                &&& eval4(x0, x1, x2, x3, -1) * eval4(y0, y1, y2, y3, -1) == c0 - c1 + c2 - c3
                    + c4 - c5 + c6
                &&& eval4(x0, x1, x2, x3, 2) * eval4(y0, y1, y2, y3, 2) == c0 + 2 * c1 + 4 * c2 + 8
                    * c3 + 16 * c4 + 32 * c5 + 64 * c6
                &&& eval4(x0, x1, x2, x3, -2) * eval4(y0, y1, y2, y3, -2) == c0 - 2 * c1 + 4 * c2
                    - 8 * c3 + 16 * c4 - 32 * c5 + 64 * c6
                &&& eval4_half(x0, x1, x2, x3) * eval4_half(y0, y1, y2, y3) == 64 * c0 + 32 * c1
                    + 16 * c2 + 8 * c3 + 4 * c4 + 2 * c5 + c6
            }),
    {
        let (x0, x1, x2, x3) = (val(a0) as int, val(a1) as int, val(a2) as int, val(a3) as int);
        let (y0, y1, y2, y3) = (val(b0) as int, val(b1) as int, val(b2) as int, val(b3) as int);
        let p = pow_b(s) as int;
        lemma_parts_bound(a0, a1, a2, a3, s);
        lemma_parts_bound(b0, b1, b2, b3, s);
        lemma_toom4_points(x0, x1, x2, x3, y0, y1, y2, y3);
        lemma_pow_b_add(s, s);
        lemma_pow_b_add(2 * s, 2);
        assert(pow_b(2) == radix() * radix()) by {
            crate::limbs::lemma_pow_b_one();
            assert(pow_b(2) == radix() * pow_b(1));
        }
        assert(0 <= x0 * y0 < p * p && 0 <= x0 * y1 < p * p && 0 <= x0 * y2 < p * p && 0 <= x0 * y3
            < p * p && 0 <= x1 * y0 < p * p && 0 <= x1 * y1 < p * p && 0 <= x1 * y2 < p * p && 0
            <= x1 * y3 < p * p && 0 <= x2 * y0 < p * p && 0 <= x2 * y1 < p * p && 0 <= x2 * y2 < p
            * p && 0 <= x2 * y3 < p * p && 0 <= x3 * y0 < p * p && 0 <= x3 * y1 < p * p && 0 <= x3
            * y2 < p * p && 0 <= x3 * y3 < p * p) by (nonlinear_arith)
            requires
                0 <= x0 < p,
                0 <= x1 < p,
                0 <= x2 < p,
                0 <= x3 < p,
                0 <= y0 < p,
                0 <= y1 < p,
                0 <= y2 < p,
                0 <= y3 < p,
        ;
        assert(128 * 16 * (p * p) < (p * p) * (radix() * radix())) by (nonlinear_arith)
            requires
                p >= 1,
        ;
    }

    /// The product is the seven coefficients placed at their part widths,
    /// and fits the destination.
    #[verifier::rlimit(40)]
    #[verifier::spinoff_prover]
    proof fn lemma_level_result(
        a: Seq<Limb>,
        b: Seq<Limb>,
        a0: Seq<Limb>,
        a1: Seq<Limb>,
        a2: Seq<Limb>,
        a3: Seq<Limb>,
        b0: Seq<Limb>,
        b1: Seq<Limb>,
        b2: Seq<Limb>,
        b3: Seq<Limb>,
        s: nat,
    )
        requires
            val(a) == eval4(
                val(a0) as int,
                val(a1) as int,
                val(a2) as int,
                val(a3) as int,
                pow_b(s) as int,
            ),
            val(b) == eval4(
                val(b0) as int,
                val(b1) as int,
                val(b2) as int,
                val(b3) as int,
                pow_b(s) as int,
            ),
        ensures
            ({
                let (x0, x1, x2, x3) = (val(a0) as int, val(a1) as int, val(a2) as int, val(a3) as int);
                let (y0, y1, y2, y3) = (val(b0) as int, val(b1) as int, val(b2) as int, val(b3) as int);
                let x = pow_b(s) as int;
                val(a) * val(b) == x0 * y0 + (x0 * y1 + x1 * y0) * x + (x0 * y2 + x1 * y1 + x2
                    * y0) * (x * x) + (x0 * y3 + x1 * y2 + x2 * y1 + x3 * y0) * (x * x * x) + (x1
                    * y3 + x2 * y2 + x3 * y1) * (x * x * x * x) + (x2 * y3 + x3 * y2) * (x * x * x
                    * x * x) + (x3 * y3) * (x * x * x * x * x * x)
            }),
            val(a) * val(b) < pow_b(a.len() + b.len()),
    {
        lemma_val_bound(a);
        lemma_val_bound(b);
        lemma_pow_b_add(a.len(), b.len());
        assert(val(a) * val(b) < pow_b(a.len()) * pow_b(b.len())) by (nonlinear_arith)
            requires
                val(a) < pow_b(a.len()),
                val(b) < pow_b(b.len()),
        ;
        lemma_poly4_product(
            val(a0) as int,
            val(a1) as int,
            val(a2) as int,
            val(a3) as int,
            val(b0) as int,
            val(b1) as int,
            val(b2) as int,
            val(b3) as int,
            pow_b(s) as int,
        );
    }
}

impl Toom4 {
    /// Writes the constant product `a0 b0` over the low `2s` limbs and the
    /// infinity product `a3 b3` from `6s` on, and clears the gap between the
    /// one-product region `[2s, 4s + 2)` and the infinity product; the
    /// one-product region itself is left alone.
    #[verifier::rlimit(40)]
    #[verifier::spinoff_prover]
    fn write_endpoints(
        dst: &mut [Limb],
        a0: &[Limb],
        b0: &[Limb],
        a3: &[Limb],
        b3: &[Limb],
        s: usize,
        inner: &mut [Limb],
        square: bool,
    )
        requires
            s >= 1,
            a0@.len() == s,
            b0@.len() == s,
            1 <= a3@.len() <= s,
            1 <= b3@.len() <= s,
            old(dst)@.len() == 6 * s + a3@.len() + b3@.len(),
            old(inner)@.len() >= spec_toom4_scratch(s as nat),
            square ==> a0@ == b0@ && a3@ == b3@,
        ensures
            final(dst)@.len() == old(dst)@.len(),
            final(inner)@.len() == old(inner)@.len(),
            final(dst)@.subrange(2 * s as int, 4 * s + 2) == old(dst)@.subrange(
                2 * s as int,
                4 * s + 2,
            ),
            val(final(dst)@.subrange(0, 2 * s as int)) == val(a0@) * val(b0@),
            crate::limbs::all_zero(final(dst)@.subrange(4 * s + 2, 6 * s as int)),
            val(final(dst)@.subrange(6 * s as int, final(dst)@.len() as int)) == val(a3@) * val(
                b3@,
            ),
    {
        let dl = dst.len();
        let w = 2 * s + 2;
        let ghost d0 = dst@;
        proof {
            lemma_toom4_covers_toom3(s as nat);
            lemma_toom3_scratch_monotone(
                if a3@.len() >= b3@.len() {
                    a3@.len()
                } else {
                    b3@.len()
                },
                s as nat,
            );
        }
        let ghost low_f: Seq<Limb>;
        let ghost one_f: Seq<Limb>;
        let ghost gap_f: Seq<Limb>;
        let ghost inf_f: Seq<Limb>;
        {
            let (low, rest) = dst.split_at_mut(2 * s);
            if square {
                Toom3::sqr_exact(low, a0, inner);
            } else {
                Toom3::mul_exact(low, a0, b0, inner);
            }
            let (one, high) = rest.split_at_mut(w);
            let (gap, inf) = high.split_at_mut(2 * s - 2);
            Addition::fill_zero(gap);
            if square {
                Toom3::sqr_exact(inf, a3, inner);
            } else {
                Toom3::mul_exact(inf, a3, b3, inner);
            }
            proof {
                low_f = low@;
                one_f = one@;
                gap_f = gap@;
                inf_f = inf@;
            }
        }
        proof {
            assert(dst@ =~= low_f + one_f + gap_f + inf_f);
            assert(dst@.subrange(0, 2 * s as int) =~= low_f);
            assert(dst@.subrange(2 * s as int, 4 * s + 2) =~= one_f);
            assert(one_f =~= d0.subrange(2 * s as int, 4 * s + 2));
            assert(dst@.subrange(4 * s + 2, 6 * s as int) =~= gap_f);
            assert(dst@.subrange(6 * s as int, dst@.len() as int) =~= inf_f);
        }
    }

    /// Interpolates in place: reads the endpoint products from `dst`, turns
    /// the one-product region `[2s, 2s + product_len)` into `c2`, and leaves
    /// `c1, c3, c4, c5` in `neg_one, half, two, neg_two`.
    #[verifier::rlimit(40)]
    #[verifier::spinoff_prover]
    fn interpolate_destination(
        dst: &mut [Limb],
        values: DestinationInterpolation,
        Ghost(c1): Ghost<int>,
        Ghost(c2): Ghost<int>,
        Ghost(c3): Ghost<int>,
        Ghost(c4): Ghost<int>,
        Ghost(c5): Ghost<int>,
    )
        requires
            values.split_len >= 1,
            values.product_len == 2 * values.split_len + 2,
            values.low_product_len == 2 * values.split_len,
            1 <= values.high_product_len <= 2 * values.split_len,
            old(dst)@.len() == 6 * values.split_len + values.high_product_len,
            values.neg_two@.len() == values.product_len,
            values.neg_one@.len() == values.product_len,
            values.two@.len() == values.product_len,
            values.half@.len() == values.product_len,
            ({
                let s = values.split_len as int;
                let c0 = val(old(dst)@.subrange(0, 2 * s)) as int;
                let c6 = val(old(dst)@.subrange(6 * s, old(dst)@.len() as int)) as int;
                &&& coefficients_fit(c0, c1, c2, c3, c4, c5, c6, pow_b(values.product_len as nat) as int)
                &&& val(old(dst)@.subrange(2 * s, 4 * s + 2)) == c0 + c1 + c2 + c3 + c4 + c5 + c6
                &&& (if values.neg_one_negative {
                    -val(values.neg_one@)
                } else {
                    val(values.neg_one@) as int
                }) == c0 - c1 + c2 - c3 + c4 - c5 + c6
                &&& val(values.two@) == c0 + 2 * c1 + 4 * c2 + 8 * c3 + 16 * c4 + 32 * c5 + 64 * c6
                &&& (if values.neg_two_negative {
                    -val(values.neg_two@)
                } else {
                    val(values.neg_two@) as int
                }) == c0 - 2 * c1 + 4 * c2 - 8 * c3 + 16 * c4 - 32 * c5 + 64 * c6
                &&& val(values.half@) == 64 * c0 + 32 * c1 + 16 * c2 + 8 * c3 + 4 * c4 + 2 * c5 + c6
            }),
        ensures
            final(dst)@.len() == old(dst)@.len(),
            final(values.neg_two)@.len() == old(values.neg_two)@.len(),
            final(values.neg_one)@.len() == old(values.neg_one)@.len(),
            final(values.two)@.len() == old(values.two)@.len(),
            final(values.half)@.len() == old(values.half)@.len(),
            final(dst)@.subrange(0, 2 * values.split_len as int) == old(dst)@.subrange(
                0,
                2 * values.split_len as int,
            ),
            final(dst)@.subrange(4 * values.split_len + 2, final(dst)@.len() as int) == old(
                dst,
            )@.subrange(4 * values.split_len + 2, old(dst)@.len() as int),
            val(final(dst)@.subrange(2 * values.split_len as int, 4 * values.split_len + 2)) == c2,
            val(final(values.neg_one)@) == c1,
            val(final(values.half)@) == c3,
            val(final(values.two)@) == c4,
            val(final(values.neg_two)@) == c5,
    {
        let DestinationInterpolation {
            split_len,
            product_len,
            low_product_len,
            high_product_len,
            neg_two,
            neg_one,
            two,
            half,
            neg_two_negative,
            neg_one_negative,
        } = values;
        let s = split_len;
        let ghost d0 = dst@;
        let ghost one2: Seq<Limb>;
        let ghost before_f: Seq<Limb>;
        let ghost after_f: Seq<Limb>;
        {
            let (before, rest) = dst.split_at_mut(low_product_len);
            let (one, after) = rest.split_at_mut(product_len);
            let zero: &[Limb] = &*before;
            let after_len = after.len();
            let infinity: &[Limb] = &after[2 * s - 2..after_len];
            let ghost c0 = val(zero@) as int;
            let ghost c6 = val(infinity@) as int;
            proof {
                assert(zero@ =~= d0.subrange(0, 2 * s as int));
                assert(infinity@ =~= d0.subrange(6 * s as int, d0.len() as int));
                assert(one@ =~= d0.subrange(2 * s as int, 4 * s + 2));
                assert(seven_points(c0, c1, c2, c3, c4, c5, c6) == observed_points(
                    val(one@),
                    val(neg_one@),
                    neg_one_negative,
                    val(two@),
                    val(neg_two@),
                    neg_two_negative,
                    val(half@),
                ));
            }
            Toom4::interpolate_with_endpoints(
                zero,
                infinity,
                MiddleValues {
                    neg_two,
                    one,
                    neg_one,
                    two,
                    half,
                    neg_two_negative,
                    neg_one_negative,
                },
            );
            proof {
                one2 = one@;
                before_f = before@;
                after_f = after@;
            }
        }
        proof {
            assert(dst@ =~= before_f + one2 + after_f);
            assert(dst@.subrange(0, 2 * s as int) =~= before_f);
            assert(dst@.subrange(2 * s as int, 4 * s + 2) =~= one2);
            assert(dst@.subrange(4 * s + 2, dst@.len() as int) =~= after_f);
            assert(before_f =~= d0.subrange(0, 2 * s as int));
            assert(after_f =~= d0.subrange(4 * s + 2, d0.len() as int));
        }
    }

    /// Places the two endpoint products, interpolates the five middle
    /// coefficients and adds them in: afterwards `dst` holds
    /// `c0 + c1 X + ... + c6 X^6` with `X = B^s`.
    #[verifier::rlimit(40)]
    #[verifier::spinoff_prover]
    fn finish(
        dst: &mut [Limb],
        neg_two: &mut [Limb],
        neg_one: &mut [Limb],
        two: &mut [Limb],
        half: &mut [Limb],
        inner: &mut [Limb],
        a0: &[Limb],
        b0: &[Limb],
        a3: &[Limb],
        b3: &[Limb],
        s: usize,
        neg_two_negative: bool,
        neg_one_negative: bool,
        square: bool,
        Ghost(c0): Ghost<int>,
        Ghost(c1): Ghost<int>,
        Ghost(c2): Ghost<int>,
        Ghost(c3): Ghost<int>,
        Ghost(c4): Ghost<int>,
        Ghost(c5): Ghost<int>,
        Ghost(c6): Ghost<int>,
    )
        requires
            s >= 1,
            a0@.len() == s,
            b0@.len() == s,
            1 <= a3@.len() <= s,
            1 <= b3@.len() <= s,
            old(dst)@.len() == 6 * s + a3@.len() + b3@.len(),
            old(neg_two)@.len() == 2 * s + 2,
            old(neg_one)@.len() == 2 * s + 2,
            old(two)@.len() == 2 * s + 2,
            old(half)@.len() == 2 * s + 2,
            old(inner)@.len() >= spec_toom4_scratch(s as nat),
            square ==> a0@ == b0@ && a3@ == b3@,
            c0 == val(a0@) * val(b0@),
            c6 == val(a3@) * val(b3@),
            coefficients_fit(c0, c1, c2, c3, c4, c5, c6, pow_b(2 * s as nat + 2) as int),
            val(old(dst)@.subrange(2 * s as int, 4 * s + 2)) == c0 + c1 + c2 + c3 + c4 + c5 + c6,
            (if neg_one_negative {
                -val(old(neg_one)@)
            } else {
                val(old(neg_one)@) as int
            }) == c0 - c1 + c2 - c3 + c4 - c5 + c6,
            val(old(two)@) == c0 + 2 * c1 + 4 * c2 + 8 * c3 + 16 * c4 + 32 * c5 + 64 * c6,
            (if neg_two_negative {
                -val(old(neg_two)@)
            } else {
                val(old(neg_two)@) as int
            }) == c0 - 2 * c1 + 4 * c2 - 8 * c3 + 16 * c4 - 32 * c5 + 64 * c6,
            val(old(half)@) == 64 * c0 + 32 * c1 + 16 * c2 + 8 * c3 + 4 * c4 + 2 * c5 + c6,
            ({
                let x = pow_b(s as nat) as int;
                c0 + c1 * x + c2 * (x * x) + c3 * (x * x * x) + c4 * (x * x * x * x) + c5 * (x * x
                    * x * x * x) + c6 * (x * x * x * x * x * x) < pow_b(old(dst)@.len())
            }),
        ensures
            final(dst)@.len() == old(dst)@.len(),
            final(neg_two)@.len() == old(neg_two)@.len(),
            final(neg_one)@.len() == old(neg_one)@.len(),
            final(two)@.len() == old(two)@.len(),
            final(half)@.len() == old(half)@.len(),
            final(inner)@.len() == old(inner)@.len(),
            ({
                let x = pow_b(s as nat) as int;
                val(final(dst)@) == c0 + c1 * x + c2 * (x * x) + c3 * (x * x * x) + c4 * (x * x * x
                    * x) + c5 * (x * x * x * x * x) + c6 * (x * x * x * x * x * x)
            }),
    {
        let dl = dst.len();
        let w = 2 * s + 2;
        let ghost x = pow_b(s as nat) as int;
        Self::write_endpoints(dst, a0, b0, a3, b3, s, inner, square);
        let ghost d1 = dst@;
        let high_product_len = a3.len() + b3.len();
        Self::interpolate_destination(
            dst,
            DestinationInterpolation {
                split_len: s,
                product_len: w,
                low_product_len: 2 * s,
                high_product_len,
                neg_two: &mut *neg_two,
                neg_one: &mut *neg_one,
                two: &mut *two,
                half: &mut *half,
                neg_two_negative,
                neg_one_negative,
            },
            Ghost(c1),
            Ghost(c2),
            Ghost(c3),
            Ghost(c4),
            Ghost(c5),
        );
        proof {
            let d = dst@;
            let low = d.subrange(0, 2 * s as int);
            let one = d.subrange(2 * s as int, 4 * s + 2);
            let gap = d.subrange(4 * s + 2, 6 * s as int);
            let inf = d.subrange(6 * s as int, d.len() as int);
            let tail = d.subrange(4 * s + 2, d.len() as int);
            assert(tail == d1.subrange(4 * s + 2, d1.len() as int));
            assert(gap =~= tail.subrange(0, 2 * s - 2));
            assert(gap =~= d1.subrange(4 * s + 2, 6 * s as int));
            assert(inf =~= tail.subrange(2 * s - 2, tail.len() as int));
            assert(inf =~= d1.subrange(6 * s as int, d1.len() as int));
            assert(low == d1.subrange(0, 2 * s as int));
            assert(d =~= low + one + gap + inf);
            lemma_four_regions(d, low, one, gap, inf, s as nat);
            lemma_part_powers(s as nat);
            lemma_mul_is_commutative(pow_b(2 * s as nat) as int, c2);
            lemma_mul_is_commutative(pow_b(6 * s as nat) as int, c6);
            assert(val(dst@) == c0 + c2 * (x * x) + c6 * (x * x * x * x * x * x));
        }
        Self::reconstruct_around_quadratic(dst, s, neg_one, half, two, neg_two);
    }

}

impl Toom4 {
    /// Evaluates both operands at the five points other than `0` and `∞` and
    /// multiplies the evaluations: the product at `1` goes to `dst` at two
    /// part widths, the others to `products`; the signs of the values at `-2`
    /// and `-1` come back.
    #[verifier::rlimit(40)]
    #[verifier::spinoff_prover]
    pub fn multiply_points(
        dst: &mut [Limb],
        dimensions: PointDimensions,
        parts_a: OperandParts,
        parts_b: OperandParts,
        products: &mut MiddleProducts,
        evaluations: &mut EvaluationBuffers,
    ) -> (signs: (bool, bool))
        requires
            dimensions.split >= 1,
            dimensions.evaluation == dimensions.split + 1,
            dimensions.product == 2 * dimensions.split + 2,
            2 * dimensions.split + dimensions.product <= old(dst)@.len(),
            old(products).neg_two@.len() == dimensions.product,
            old(products).neg_one@.len() == dimensions.product,
            old(products).two@.len() == dimensions.product,
            old(products).half@.len() == dimensions.product,
            old(evaluations).a@.len() == dimensions.evaluation,
            old(evaluations).b@.len() == dimensions.evaluation,
            old(evaluations).inner@.len() >= spec_toom4_scratch(dimensions.split as nat),
            parts_below(parts_a.zero@, parts_a.one@, parts_a.two@, parts_a.three@, dimensions.split as nat),
            parts_below(parts_b.zero@, parts_b.one@, parts_b.two@, parts_b.three@, dimensions.split as nat),
        ensures
            final(dst)@.len() == old(dst)@.len(),
            final(dst)@.subrange(0, 2 * dimensions.split as int) == old(dst)@.subrange(
                0,
                2 * dimensions.split as int,
            ),
            final(dst)@.subrange(2 * dimensions.split + dimensions.product, final(dst)@.len() as int)
                == old(dst)@.subrange(2 * dimensions.split + dimensions.product, old(dst)@.len() as int),
            final(products).neg_two@.len() == dimensions.product,
            final(products).neg_one@.len() == dimensions.product,
            final(products).two@.len() == dimensions.product,
            final(products).half@.len() == dimensions.product,
            final(evaluations).a@.len() == dimensions.evaluation,
            final(evaluations).b@.len() == dimensions.evaluation,
            final(evaluations).inner@.len() == old(evaluations).inner@.len(),
            ({
                let (x0, x1, x2, x3) = (val(parts_a.zero@) as int, val(parts_a.one@) as int, val(parts_a.two@) as int, val(parts_a.three@) as int);
                let (y0, y1, y2, y3) = (val(parts_b.zero@) as int, val(parts_b.one@) as int, val(parts_b.two@) as int, val(parts_b.three@) as int);
                let one = final(dst)@.subrange(
                    2 * dimensions.split as int,
                    2 * dimensions.split + dimensions.product,
                );
                &&& val(one) == eval4(x0, x1, x2, x3, 1) * eval4(y0, y1, y2, y3, 1)
                &&& val(final(products).neg_one@) == abs(eval4(x0, x1, x2, x3, -1)) * abs(eval4(y0, y1, y2, y3, -1))
                &&& signs.1 == ((eval4(x0, x1, x2, x3, -1) < 0) != (eval4(y0, y1, y2, y3, -1) < 0))
                &&& val(final(products).two@) == eval4(x0, x1, x2, x3, 2) * eval4(y0, y1, y2, y3, 2)
                &&& val(final(products).neg_two@) == abs(eval4(x0, x1, x2, x3, -2)) * abs(eval4(y0, y1, y2, y3, -2))
                &&& signs.0 == ((eval4(x0, x1, x2, x3, -2) < 0) != (eval4(y0, y1, y2, y3, -2) < 0))
                &&& val(final(products).half@) == eval4_half(x0, x1, x2, x3) * eval4_half(y0, y1, y2, y3)
            }),
    {
        let s = dimensions.split;
        let ghost d0 = dst@;
        let ghost low_f: Seq<Limb>;
        let ghost one_f: Seq<Limb>;
        let ghost high_f: Seq<Limb>;
        let signs;
        {
            let (low, rest) = dst.split_at_mut(2 * s);
            let (one, high) = rest.split_at_mut(dimensions.product);
            signs = Self::evaluate_and_multiply(
                one,
                &mut *products.neg_two,
                &mut *products.neg_one,
                &mut *products.two,
                &mut *products.half,
                &mut *evaluations.a,
                &mut *evaluations.b,
                &mut *evaluations.inner,
                parts_a.zero,
                parts_a.one,
                parts_a.two,
                parts_a.three,
                parts_b.zero,
                parts_b.one,
                parts_b.two,
                parts_b.three,
                s,
                false,
            );
            proof {
                low_f = low@;
                one_f = one@;
                high_f = high@;
            }
        }
        proof {
            assert(dst@ =~= low_f + one_f + high_f);
            assert(dst@.subrange(0, 2 * s as int) =~= low_f);
            assert(low_f =~= d0.subrange(0, 2 * s as int));
            assert(dst@.subrange(2 * s as int, 2 * s + dimensions.product) =~= one_f);
            assert(dst@.subrange(2 * s + dimensions.product, dst@.len() as int) =~= high_f);
            assert(high_f =~= d0.subrange(2 * s + dimensions.product, d0.len() as int));
        }
        signs
    }
}

impl Toom4 {
    /// Scratch a four-way product of operands of `len_a` and `len_b` limbs
    /// needs, recursion and the three-way fallback included, saturating at
    /// `usize::MAX`.
    pub fn mul_scratch_len(len_a: usize, len_b: usize) -> (len: usize)
        ensures
            len == crate::num::sat(spec_toom4_scratch(max_len(len_a as nat, len_b as nat)) as int),
    {
        let n = if len_a >= len_b {
            len_a
        } else {
            len_b
        };
        Self::scratch_for_width(n)
    }

    /// Scratch a four-way square of a `len`-limb operand needs, saturating.
    pub fn sqr_scratch_len(len: usize) -> (scratch: usize)
        ensures
            scratch == crate::num::sat(spec_toom4_scratch(len as nat) as int),
    {
        Self::scratch_for_width(len)
    }

    fn scratch_for_width(n: usize) -> (len: usize)
        ensures
            len == crate::num::sat(spec_toom4_scratch(n as nat) as int),
        decreases n,
    {
        let three_way = Toom3::sqr_forced_scratch_len(n);
        if n < 4 {
            return three_way;
        }
        let s = n / 4 + if n % 4 == 0 {
            0
        } else {
            1
        };
        proof {
            assert(s == spec_toom4_split_len(n as nat));
        }
        let inner = Self::scratch_for_width(s);
        let own = if s > (usize::MAX - 10) / 10 {
            usize::MAX
        } else {
            let local = 4 * (2 * (s + 1)) + 2 * (s + 1);
            match local.checked_add(inner) {
                Some(total) => total,
                None => usize::MAX,
            }
        };
        if own >= three_way {
            own
        } else {
            three_way
        }
    }
}

} // verus!
